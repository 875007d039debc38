use poker::cards::{create_deck, shuffle_deck, Card, Suit};
use poker::hand::{evaluate_best_hand, HandRank};

fn c(rank: u8, suit: Suit) -> Card {
    Card { rank, suit }
}

fn best(cards: &[Card]) -> HandRank {
    evaluate_best_hand(&cards[..2], &cards[2..])
}

#[test]
fn deck_has_52_cards_in_suit_order() {
    let deck = create_deck();
    assert_eq!(deck.len(), 52);
    assert_eq!(deck[0], c(2, Suit::Clubs));
    assert_eq!(deck[12], c(14, Suit::Clubs));
    assert_eq!(deck[13], c(2, Suit::Diamonds));
    assert_eq!(deck[51], c(14, Suit::Spades));
    for i in 0..52 {
        for j in 0..i {
            assert_ne!(deck[i], deck[j]);
        }
    }
}

#[test]
fn shuffle_keeps_the_same_cards() {
    let mut deck = create_deck();
    shuffle_deck(&mut deck);
    assert_eq!(deck.len(), 52);
    let fresh = create_deck();
    // 52! orders: the chance that a shuffle leaves the deck as it was is nil.
    assert_ne!(deck, fresh);
    for card in &fresh {
        assert_eq!(deck.iter().filter(|d| *d == card).count(), 1);
    }
}

#[test]
fn card_text() {
    assert_eq!(c(10, Suit::Hearts).to_string(), "10\u{2665}");
    assert_eq!(c(14, Suit::Spades).to_string(), "A\u{2660}");
    assert_eq!(c(11, Suit::Diamonds).to_string(), "J\u{2666}");
    assert_eq!(c(12, Suit::Clubs).to_string(), "Q\u{2663}");
    assert_eq!(c(13, Suit::Clubs).to_string(), "K\u{2663}");
    assert_eq!(c(2, Suit::Clubs).to_string(), "2\u{2663}");
    assert_eq!(c(1, Suit::Clubs).to_string(), "?\u{2663}");
    assert_eq!(Suit::Diamonds.to_string(), "\u{2666}");
}

#[test]
fn straight_flush_is_ranked_by_its_top_card() {
    let cards = [
        c(14, Suit::Hearts),
        c(13, Suit::Hearts),
        c(12, Suit::Hearts),
        c(11, Suit::Hearts),
        c(10, Suit::Hearts),
        c(2, Suit::Clubs),
        c(3, Suit::Diamonds),
    ];
    assert_eq!(best(&cards), HandRank(9, vec![14]));
}

#[test]
fn four_of_a_kind_with_kicker() {
    let cards = [
        c(9, Suit::Hearts),
        c(9, Suit::Spades),
        c(9, Suit::Clubs),
        c(9, Suit::Diamonds),
        c(13, Suit::Hearts),
        c(2, Suit::Clubs),
        c(3, Suit::Diamonds),
    ];
    assert_eq!(best(&cards), HandRank(8, vec![9, 13]));
}

#[test]
fn full_house_takes_the_best_pair() {
    let cards = [
        c(13, Suit::Hearts),
        c(13, Suit::Spades),
        c(13, Suit::Clubs),
        c(2, Suit::Diamonds),
        c(2, Suit::Hearts),
        c(5, Suit::Clubs),
        c(5, Suit::Diamonds),
    ];
    assert_eq!(best(&cards), HandRank(7, vec![13, 5]));
}

#[test]
fn flush_lists_all_five_ranks() {
    let cards = [
        c(2, Suit::Clubs),
        c(9, Suit::Clubs),
        c(11, Suit::Clubs),
        c(4, Suit::Clubs),
        c(7, Suit::Clubs),
        c(13, Suit::Hearts),
        c(12, Suit::Diamonds),
    ];
    assert_eq!(best(&cards), HandRank(6, vec![11, 9, 7, 4, 2]));
}

#[test]
fn wheel_counts_as_a_straight() {
    let cards = [
        c(14, Suit::Clubs),
        c(2, Suit::Hearts),
        c(3, Suit::Clubs),
        c(4, Suit::Spades),
        c(5, Suit::Diamonds),
        c(9, Suit::Hearts),
        c(11, Suit::Diamonds),
    ];
    assert_eq!(best(&cards), HandRank(5, vec![14]));
}

#[test]
fn straight_in_the_middle() {
    let cards = [
        c(6, Suit::Clubs),
        c(7, Suit::Hearts),
        c(8, Suit::Clubs),
        c(9, Suit::Spades),
        c(10, Suit::Diamonds),
        c(2, Suit::Hearts),
        c(14, Suit::Diamonds),
    ];
    assert_eq!(best(&cards), HandRank(5, vec![10]));
}

#[test]
fn three_of_a_kind_with_two_kickers() {
    let cards = [
        c(8, Suit::Clubs),
        c(8, Suit::Hearts),
        c(8, Suit::Spades),
        c(2, Suit::Spades),
        c(13, Suit::Diamonds),
        c(4, Suit::Hearts),
        c(11, Suit::Diamonds),
    ];
    assert_eq!(best(&cards), HandRank(4, vec![8, 13, 11]));
}

#[test]
fn two_pair_with_kicker() {
    let cards = [
        c(4, Suit::Clubs),
        c(4, Suit::Hearts),
        c(12, Suit::Spades),
        c(12, Suit::Diamonds),
        c(13, Suit::Diamonds),
        c(2, Suit::Hearts),
        c(7, Suit::Diamonds),
    ];
    assert_eq!(best(&cards), HandRank(3, vec![12, 4, 13]));
}

#[test]
fn one_pair_with_three_kickers() {
    let cards = [
        c(10, Suit::Clubs),
        c(10, Suit::Hearts),
        c(14, Suit::Spades),
        c(9, Suit::Diamonds),
        c(5, Suit::Diamonds),
        c(2, Suit::Hearts),
        c(3, Suit::Clubs),
    ];
    assert_eq!(best(&cards), HandRank(2, vec![10, 14, 9, 5]));
}

#[test]
fn high_card_lists_the_best_five() {
    let cards = [
        c(2, Suit::Clubs),
        c(5, Suit::Hearts),
        c(14, Suit::Spades),
        c(9, Suit::Diamonds),
        c(11, Suit::Diamonds),
        c(7, Suit::Hearts),
        c(3, Suit::Clubs),
    ];
    assert_eq!(best(&cards), HandRank(1, vec![14, 11, 9, 7, 5]));
}

#[test]
fn five_cards_alone_are_evaluated() {
    let hole = [c(2, Suit::Clubs), c(2, Suit::Hearts)];
    let board = [c(3, Suit::Clubs), c(3, Suit::Hearts), c(3, Suit::Spades)];
    assert_eq!(evaluate_best_hand(&hole, &board), HandRank(7, vec![3, 2]));
}

#[test]
fn hand_rank_text() {
    assert_eq!(HandRank(2, vec![10, 14, 9, 5]).to_string(), "One Pair ([10, 14, 9, 5])");
    assert_eq!(HandRank(9, vec![12]).to_string(), "Straight Flush ([12])");
    assert_eq!(HandRank(8, vec![9, 13]).to_string(), "Four of a Kind ([9, 13])");
    assert_eq!(HandRank(7, vec![3, 2]).to_string(), "Full House ([3, 2])");
    assert_eq!(HandRank(6, vec![11, 9, 7, 4, 2]).to_string(), "Flush ([11, 9, 7, 4, 2])");
    assert_eq!(HandRank(5, vec![14]).to_string(), "Straight ([14])");
    assert_eq!(HandRank(4, vec![8, 13, 11]).to_string(), "Three of a Kind ([8, 13, 11])");
    assert_eq!(HandRank(3, vec![12, 4, 13]).to_string(), "Two Pair ([12, 4, 13])");
    assert_eq!(HandRank(1, vec![14, 11, 9, 7, 5]).to_string(), "High Card ([14, 11, 9, 7, 5])");
    assert_eq!(HandRank(0, vec![]).to_string(), "Unknown ([])");
    assert_eq!(HandRank(1, vec![0, 255]).to_string(), "High Card ([0, 255])");
}

#[test]
fn hand_rank_order_is_lexicographic() {
    assert!(HandRank(1, vec![14]).less_than(&HandRank(2, vec![2])));
    assert!(HandRank(2, vec![10, 3]).less_than(&HandRank(2, vec![10, 4])));
    assert!(HandRank(2, vec![10]).less_than(&HandRank(2, vec![10, 4])));
    assert!(!HandRank(2, vec![10, 4]).less_than(&HandRank(2, vec![10, 4])));
    assert!(!HandRank(3, vec![2]).less_than(&HandRank(2, vec![14])));
}

#[test]
fn best_hand_ignores_card_order() {
    let cards = [
        c(10, Suit::Clubs),
        c(10, Suit::Hearts),
        c(14, Suit::Spades),
        c(9, Suit::Diamonds),
        c(5, Suit::Diamonds),
        c(2, Suit::Hearts),
        c(3, Suit::Clubs),
    ];
    let mut swapped = cards;
    swapped.reverse();
    assert_eq!(best(&cards), best(&swapped));
    assert_eq!(evaluate_best_hand(&cards[..5], &cards[5..]), best(&cards));
}

#[test]
fn another_card_never_lowers_the_best_hand() {
    let hole = [c(10, Suit::Clubs), c(10, Suit::Hearts)];
    let board = [c(14, Suit::Spades), c(9, Suit::Diamonds), c(5, Suit::Diamonds)];
    let before = evaluate_best_hand(&hole, &board);
    let more = [c(14, Suit::Spades), c(9, Suit::Diamonds), c(5, Suit::Diamonds), c(10, Suit::Spades)];
    let after = evaluate_best_hand(&hole, &more);
    assert_eq!(before, HandRank(2, vec![10, 14, 9, 5]));
    assert_eq!(after, HandRank(4, vec![10, 14, 9]));
    assert!(!after.less_than(&before));
}
