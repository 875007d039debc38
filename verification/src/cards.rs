//! Cards, the standard deck and its shuffle.

use vstd::prelude::*;
use vstd::string::*;
use rand::seq::SliceRandom;
use crate::text::{decimal, push_decimal};

verus! {

/// The four suits, in the order in which a fresh deck holds them.
#[derive(Clone, Copy, Debug, PartialEq, Eq, Structural)]
pub enum Suit {
    Clubs,
    Diamonds,
    Hearts,
    Spades,
}

/// A playing card. `rank` runs from 2 to 14, where 11 is the jack, 12 the
/// queen, 13 the king and 14 the ace.
#[derive(Clone, Copy, Debug, PartialEq, Eq, Structural)]
pub struct Card {
    pub rank: u8,
    pub suit: Suit,
}

/// The suit at position `i` (0 to 3) of a fresh deck.
pub open spec fn suit_at(i: int) -> Suit {
    if i == 0 {
        Suit::Clubs
    } else if i == 1 {
        Suit::Diamonds
    } else if i == 2 {
        Suit::Hearts
    } else {
        Suit::Spades
    }
}

/// A fresh deck: for each suit in turn, the ranks 2 to 14 in ascending order.
pub open spec fn standard_deck() -> Seq<Card> {
    Seq::new(52, |i: int| Card { rank: (2 + i % 13) as u8, suit: suit_at(i / 13) })
}

/// The position of a suit in a fresh deck.
pub open spec fn suit_index(s: Suit) -> int {
    match s {
        Suit::Clubs => 0,
        Suit::Diamonds => 1,
        Suit::Hearts => 2,
        Suit::Spades => 3,
    }
}

/// A fresh deck holds 52 different cards: each of the ranks 2 to 14 in
/// each suit, and nothing else.
pub proof fn lemma_standard_deck_complete()
    ensures
        standard_deck().len() == 52,
        standard_deck().no_duplicates(),
        forall|c: Card| 2 <= c.rank <= 14 <==> #[trigger] standard_deck().contains(c),
{
    let d = standard_deck();
    assert forall|c: Card| 2 <= c.rank <= 14 implies #[trigger] d.contains(c) by {
        let i = suit_index(c.suit) * 13 + c.rank - 2;
        vstd::arithmetic::div_mod::lemma_fundamental_div_mod_converse(
            i,
            13,
            suit_index(c.suit),
            c.rank - 2,
        );
        assert(d[i] == c);
    }
    assert forall|c: Card| #[trigger] d.contains(c) implies 2 <= c.rank <= 14 by {
        let i = choose|i: int| 0 <= i < d.len() && d[i] == c;
        assert(0 <= i % 13 < 13);
    }
    assert forall|i: int, j: int| 0 <= i < d.len() && 0 <= j < d.len() && i != j implies d[i]
        != d[j] by {
        vstd::arithmetic::div_mod::lemma_fundamental_div_mod(i, 13);
        vstd::arithmetic::div_mod::lemma_fundamental_div_mod(j, 13);
        assert(0 <= i % 13 < 13 && 0 <= j % 13 < 13);
        assert(0 <= i / 13 < 4 && 0 <= j / 13 < 4);
        if d[i] == d[j] {
            assert(i % 13 == j % 13);
            assert(i / 13 == j / 13);
        }
    }
}

/// The symbol that stands for a suit.
pub open spec fn suit_text(s: Suit) -> Seq<char> {
    match s {
        Suit::Clubs => "\u{2663}"@,
        Suit::Diamonds => "\u{2666}"@,
        Suit::Hearts => "\u{2665}"@,
        Suit::Spades => "\u{2660}"@,
    }
}

/// How a rank is written: its number from 2 to 10, a letter for the
/// court cards and the ace, a question mark for anything else.
pub open spec fn rank_text(rank: u8) -> Seq<char> {
    if 2 <= rank <= 10 {
        decimal(rank as nat)
    } else if rank == 11 {
        "J"@
    } else if rank == 12 {
        "Q"@
    } else if rank == 13 {
        "K"@
    } else if rank == 14 {
        "A"@
    } else {
        "?"@
    }
}

/// How a card is written: its rank, then its suit symbol.
pub open spec fn card_text(c: Card) -> Seq<char> {
    rank_text(c.rank) + suit_text(c.suit)
}

impl Suit {
    /// The suit symbol as text.
    pub fn to_string(&self) -> (res: String)
        ensures
            res@ == suit_text(*self),
    {
        let s = match self {
            Suit::Clubs => "\u{2663}",
            Suit::Diamonds => "\u{2666}",
            Suit::Hearts => "\u{2665}",
            Suit::Spades => "\u{2660}",
        };
        String::from_str(s)
    }
}

/// Appends the text of `rank` to `out`.
fn push_rank(out: &mut String, rank: u8)
    ensures
        final(out)@ == old(out)@ + rank_text(rank),
{
    if 2 <= rank && rank <= 10 {
        push_decimal(out, rank as u32);
    } else if rank == 11 {
        out.append("J");
    } else if rank == 12 {
        out.append("Q");
    } else if rank == 13 {
        out.append("K");
    } else if rank == 14 {
        out.append("A");
    } else {
        out.append("?");
    }
}

/// Appends the text of `card` to `out`.
pub fn push_card(out: &mut String, card: &Card)
    ensures
        final(out)@ == old(out)@ + card_text(*card),
{
    push_rank(out, card.rank);
    let s = match card.suit {
        Suit::Clubs => "\u{2663}",
        Suit::Diamonds => "\u{2666}",
        Suit::Hearts => "\u{2665}",
        Suit::Spades => "\u{2660}",
    };
    out.append(s);
    assert(final(out)@ =~= old(out)@ + card_text(*card));
}

impl Card {
    /// The card as text, for example `10♥` or `A♠`.
    pub fn to_string(&self) -> (res: String)
        ensures
            res@ == card_text(*self),
    {
        let mut out = String::new();
        push_card(&mut out, self);
        assert(out@ =~= card_text(*self));
        out
    }
}

/// A fresh, ordered deck of the 52 cards.
pub fn create_deck() -> (deck: Vec<Card>)
    ensures
        deck@ == standard_deck(),
{
    let mut deck: Vec<Card> = Vec::new();
    let suits = [Suit::Clubs, Suit::Diamonds, Suit::Hearts, Suit::Spades];
    let mut s: usize = 0;
    while s < 4
        invariant
            s <= 4,
            suits@ == seq![Suit::Clubs, Suit::Diamonds, Suit::Hearts, Suit::Spades],
            deck@ == standard_deck().subrange(0, 13 * s as int),
        decreases 4 - s,
    {
        let suit = suits[s];
        let mut rank: u8 = 2;
        while rank <= 14
            invariant
                s < 4,
                2 <= rank <= 15,
                suit == suit_at(s as int),
                deck@ == standard_deck().subrange(0, 13 * s + rank - 2),
            decreases 15 - rank,
        {
            deck.push(Card { rank, suit });
            assert(deck@ =~= standard_deck().subrange(0, 13 * s + rank - 1));
            rank = rank + 1;
        }
        s = s + 1;
    }
    assert(deck@ =~= standard_deck());
    deck
}

/// Shuffles the deck in place with the thread's random generator.
///
/// Trusted: calls `rand::thread_rng` and `SliceRandom::shuffle` of rand.
/// The shuffle only swaps elements, so what comes back holds the same cards
/// in some order; which order is left open, as it rests on chance.
#[verifier::external_body]
pub fn shuffle_deck(deck: &mut Vec<Card>)
    ensures
        final(deck)@.len() == old(deck)@.len(),
        final(deck)@.to_multiset() == old(deck)@.to_multiset(),
{
    let mut rng = rand::thread_rng();
    deck.shuffle(&mut rng);
}

} // verus!
