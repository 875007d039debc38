use poker::cards::{create_deck, Card, Suit};
use poker::command::handle_command;
use poker::game::{BetAction, Player, PokerGame, RoundStage};

const SPADES: &str = "\u{2660}";

fn two_player_table() -> PokerGame {
    let mut game = PokerGame::new();
    game.join("alice");
    game.join("bob");
    game
}

/// A table whose round was dealt from an unshuffled deck: alice holds
/// A and K of spades, bob Q and J of spades.
fn dealt_table() -> PokerGame {
    let mut game = two_player_table();
    game.start_round_with_deck(create_deck());
    game
}

#[test]
fn new_player_has_1000_chips() {
    let p = Player::new("carol");
    assert_eq!(p.nick, "carol");
    assert_eq!(p.chips, 1000);
    assert!(p.hand.is_empty());
    assert_eq!(p.current_bet, 0);
    assert!(!p.folded);
}

#[test]
fn new_table_is_empty() {
    let game = PokerGame::new();
    assert!(game.players.is_empty());
    assert!(game.deck.is_empty());
    assert!(game.community_cards.is_empty());
    assert_eq!(game.pot, 0);
    assert_eq!(game.current_bet, 0);
    assert_eq!(game.current_turn, 0);
    assert_eq!(game.stage, None);
}

#[test]
fn join_adds_players_once() {
    let mut game = PokerGame::new();
    assert_eq!(game.join("alice"), "alice joined the game.");
    assert_eq!(game.join("alice"), "alice is already in the game.");
    assert_eq!(game.players.len(), 1);
    assert_eq!(game.join("bob"), "bob joined the game.");
    assert_eq!(game.players.len(), 2);
    assert_eq!(game.players[1].nick, "bob");
}

#[test]
fn join_refused_during_a_round() {
    let mut game = dealt_table();
    assert_eq!(
        game.join("carol"),
        "A round is already in progress. Please wait for the next round."
    );
    assert_eq!(game.players.len(), 2);
    assert_eq!(game.join("bob"), "bob is already in the game.");
}

#[test]
fn start_needs_two_players() {
    let mut game = PokerGame::new();
    game.join("alice");
    assert_eq!(game.start_round(), "Need at least 2 players to start.");
    assert_eq!(game.stage, None);
}

#[test]
fn start_refused_during_a_round() {
    let mut game = dealt_table();
    assert_eq!(game.start_round(), "Round already in progress.");
}

#[test]
fn start_round_deals_two_cards_each() {
    let mut game = two_player_table();
    let msg = game.start_round();
    assert!(msg.starts_with("Round started! Dealing hole cards.\nalice's hand: "));
    assert!(msg.ends_with("PreFlop betting round begins. It's alice's turn."));
    assert_eq!(game.stage, Some(RoundStage::PreFlop));
    assert_eq!(game.deck.len(), 48);
    assert_eq!(game.players[0].hand.len(), 2);
    assert_eq!(game.players[1].hand.len(), 2);
    let mut all: Vec<Card> = game.deck.clone();
    all.extend(game.players[0].hand.iter().cloned());
    all.extend(game.players[1].hand.iter().cloned());
    for card in create_deck() {
        assert_eq!(all.iter().filter(|d| **d == card).count(), 1);
    }
}

#[test]
fn start_round_with_known_deck() {
    let mut game = two_player_table();
    let msg = game.start_round_with_deck(create_deck());
    let expected = format!(
        "Round started! Dealing hole cards.\nalice's hand: A{s} K{s}\nbob's hand: Q{s} J{s}\nPreFlop betting round begins. It's alice's turn.",
        s = SPADES
    );
    assert_eq!(msg, expected);
    assert_eq!(game.players[0].hand, vec![Card { rank: 14, suit: Suit::Spades }, Card { rank: 13, suit: Suit::Spades }]);
    assert_eq!(game.deck.len(), 48);
    assert_eq!(game.deck[47], Card { rank: 10, suit: Suit::Spades });
    assert_eq!(game.pot, 0);
}

#[test]
fn bet_requires_a_round() {
    let mut game = two_player_table();
    assert_eq!(
        game.process_bet("alice", BetAction::Bet(10)),
        "No round in progress. Use !start to begin."
    );
}

#[test]
fn bet_out_of_turn_is_refused() {
    let mut game = dealt_table();
    assert_eq!(game.process_bet("bob", BetAction::Check), "It's not your turn, bob.");
    assert_eq!(game.current_turn, 0);
}

#[test]
fn first_bet_sets_the_table_bet() {
    let mut game = dealt_table();
    assert_eq!(game.process_bet("alice", BetAction::Bet(50)), "alice bets 50.");
    assert_eq!(game.players[0].chips, 950);
    assert_eq!(game.players[0].current_bet, 50);
    assert_eq!(game.pot, 50);
    assert_eq!(game.current_bet, 50);
    assert_eq!(game.current_turn, 1);
}

#[test]
fn bet_beyond_chips_is_refused() {
    let mut game = dealt_table();
    assert_eq!(
        game.process_bet("alice", BetAction::Bet(1001)),
        "alice does not have enough chips."
    );
    assert_eq!(game.players[0].chips, 1000);
    assert_eq!(game.pot, 0);
    assert_eq!(game.current_turn, 0);
}

#[test]
fn bet_below_table_bet_is_refused() {
    let mut game = dealt_table();
    game.process_bet("alice", BetAction::Bet(50));
    assert_eq!(game.process_bet("bob", BetAction::Bet(20)), "You must bet at least 50.");
    assert_eq!(game.process_bet("bob", BetAction::Bet(2000)), "bob does not have enough chips.");
    assert_eq!(game.process_bet("bob", BetAction::Bet(80)), "bob bets 80.");
    assert_eq!(game.players[1].chips, 920);
    assert_eq!(game.pot, 130);
    assert_eq!(game.current_bet, 50);
}

#[test]
fn call_pays_the_difference() {
    let mut game = dealt_table();
    game.process_bet("alice", BetAction::Bet(50));
    assert_eq!(game.process_bet("bob", BetAction::Call), "bob calls, betting 50.");
    assert_eq!(game.players[1].chips, 950);
    assert_eq!(game.players[1].current_bet, 50);
    assert_eq!(game.pot, 100);
    assert_eq!(game.process_bet("alice", BetAction::Call), "alice calls, betting 0.");
}

#[test]
fn call_beyond_chips_is_refused() {
    let mut game = dealt_table();
    game.process_bet("alice", BetAction::Bet(1000));
    game.players[1].chips = 10;
    assert_eq!(
        game.process_bet("bob", BetAction::Call),
        "bob does not have enough chips to call."
    );
    assert_eq!(game.pot, 1000);
}

#[test]
fn check_needs_a_matched_bet() {
    let mut game = dealt_table();
    assert_eq!(game.process_bet("alice", BetAction::Check), "alice checks.");
    assert_eq!(game.current_turn, 1);
    assert_eq!(game.process_bet("bob", BetAction::Bet(30)), "bob bets 30.");
    assert_eq!(
        game.process_bet("alice", BetAction::Check),
        "Cannot check, you need to call or bet 30."
    );
}

#[test]
fn fold_passes_the_turn() {
    let mut game = dealt_table();
    assert_eq!(game.process_bet("alice", BetAction::Fold), "alice folds.");
    assert!(game.players[0].folded);
    assert_eq!(game.current_turn, 1);
    assert_eq!(game.process_bet("bob", BetAction::Fold), "bob folds.");
    assert_eq!(game.current_turn, 1);
    assert_eq!(game.process_bet("bob", BetAction::Check), "bob, you have already folded.");
}

#[test]
fn turn_skips_folded_players() {
    let mut game = PokerGame::new();
    game.join("a");
    game.join("b");
    game.join("c");
    game.start_round_with_deck(create_deck());
    game.players[1].folded = true;
    assert_eq!(game.process_bet("a", BetAction::Check), "a checks.");
    assert_eq!(game.current_turn, 2);
    assert_eq!(game.process_bet("c", BetAction::Check), "c checks.");
    assert_eq!(game.current_turn, 0);
}

#[test]
fn stages_run_to_showdown() {
    let mut game = dealt_table();
    game.process_bet("alice", BetAction::Bet(40));
    game.process_bet("bob", BetAction::Call);
    let flop = game.advance_stage();
    assert_eq!(
        flop,
        format!("Flop: 10{s} 9{s} 8{s}\nFlop betting round begins. It's alice's turn.", s = SPADES)
    );
    assert_eq!(game.stage, Some(RoundStage::Flop));
    assert_eq!(game.current_bet, 0);
    assert_eq!(game.players[0].current_bet, 0);
    assert_eq!(game.deck.len(), 45);
    let turn = game.advance_stage();
    assert_eq!(turn, format!("Turn: 7{s}\nTurn betting round begins. It's alice's turn.", s = SPADES));
    let river = game.advance_stage();
    assert_eq!(river, format!("River: 6{s}\nRiver betting round begins. It's alice's turn.", s = SPADES));
    assert_eq!(game.community_cards.len(), 5);
    let showdown = game.advance_stage();
    assert_eq!(
        showdown,
        "Showdown results:\nbob: Straight Flush ([12])\nalice: Straight Flush ([10])\nWinner: bob wins the pot of 80 chips!"
    );
    assert_eq!(game.stage, None);
    assert_eq!(game.advance_stage(), "Round already ended.");
}

#[test]
fn new_street_starts_with_first_player_still_in() {
    let mut game = dealt_table();
    game.process_bet("alice", BetAction::Fold);
    let flop = game.advance_stage();
    assert!(flop.ends_with("It's bob's turn."));
    assert_eq!(game.current_turn, 1);
}

#[test]
fn showdown_with_everyone_folded() {
    let mut game = dealt_table();
    game.players[0].folded = true;
    game.players[1].folded = true;
    game.stage = Some(RoundStage::River);
    assert_eq!(game.advance_stage(), "All players folded. No showdown.");
    assert_eq!(game.stage, None);
}

#[test]
fn showdown_ties_keep_seat_order() {
    let mut game = two_player_table();
    game.players[0].hand = vec![Card { rank: 2, suit: Suit::Clubs }, Card { rank: 3, suit: Suit::Hearts }];
    game.players[1].hand = vec![Card { rank: 2, suit: Suit::Hearts }, Card { rank: 3, suit: Suit::Clubs }];
    game.community_cards = vec![
        Card { rank: 14, suit: Suit::Spades },
        Card { rank: 14, suit: Suit::Diamonds },
        Card { rank: 9, suit: Suit::Spades },
        Card { rank: 9, suit: Suit::Diamonds },
        Card { rank: 5, suit: Suit::Clubs },
    ];
    game.pot = 7;
    assert_eq!(
        game.showdown(),
        "Showdown results:\nalice: Two Pair ([14, 9, 5])\nbob: Two Pair ([14, 9, 5])\nWinner: alice wins the pot of 7 chips!"
    );
}

#[test]
fn commands_drive_the_table() {
    let mut game = PokerGame::new();
    assert_eq!(handle_command(&mut game, "alice", "!join"), Some("alice joined the game.".to_string()));
    assert_eq!(handle_command(&mut game, "bob", "  !join  "), Some("bob joined the game.".to_string()));
    assert_eq!(handle_command(&mut game, "bob", "!dance"), None);
    assert_eq!(handle_command(&mut game, "bob", "   "), None);
    assert_eq!(handle_command(&mut game, "bob", ""), None);
    let started = handle_command(&mut game, "alice", "!start").unwrap();
    assert!(started.starts_with("Round started!"));
    assert_eq!(handle_command(&mut game, "alice", "!bet"), Some("Usage: !bet <amount>".to_string()));
    assert_eq!(handle_command(&mut game, "alice", "!bet ten"), Some("Invalid bet amount.".to_string()));
    assert_eq!(handle_command(&mut game, "alice", "!bet -5"), Some("Invalid bet amount.".to_string()));
    assert_eq!(handle_command(&mut game, "alice", "!bet 4294967296"), Some("Invalid bet amount.".to_string()));
    assert_eq!(handle_command(&mut game, "alice", "!bet +25 extra"), Some("alice bets 25.".to_string()));
    assert_eq!(handle_command(&mut game, "bob", "!call"), Some("bob calls, betting 25.".to_string()));
    assert_eq!(handle_command(&mut game, "alice", "!check"), Some("alice checks.".to_string()));
    assert_eq!(handle_command(&mut game, "bob", "\t!fold"), Some("bob folds.".to_string()));
    assert_eq!(game.pot, 50);
    let flop = handle_command(&mut game, "bob", "!next").unwrap();
    assert!(flop.starts_with("Flop: "));
    assert!(flop.ends_with("It's alice's turn."));
}

#[test]
fn bet_amount_with_leading_zeros() {
    let mut game = dealt_table();
    assert_eq!(handle_command(&mut game, "alice", "!bet 007"), Some("alice bets 7.".to_string()));
}

#[test]
fn stage_names() {
    assert_eq!(RoundStage::PreFlop.to_string(), "PreFlop");
    assert_eq!(RoundStage::Flop.to_string(), "Flop");
    assert_eq!(RoundStage::Turn.to_string(), "Turn");
    assert_eq!(RoundStage::River.to_string(), "River");
    assert_eq!(RoundStage::Showdown.to_string(), "Showdown");
}

#[test]
fn limits_are_reported() {
    let mut game = PokerGame::new();
    for i in 0..27 {
        game.join(&format!("p{}", i));
    }
    assert!(!game.can_start());
    assert!(!poker::command::command_allowed_for(&game, "p0", "!start"));
    assert!(poker::command::command_allowed_for(&game, "p0", "!join"));
    let mut small = dealt_table();
    assert!(small.can_bet("alice", BetAction::Bet(10)));
    small.pot = u32::MAX;
    assert!(!small.can_bet("alice", BetAction::Bet(10)));
    assert!(small.can_bet("alice", BetAction::Check));
    small.players[0].folded = true;
    small.players[1].folded = true;
    assert!(!small.can_advance());
}

#[test]
fn written_amounts_read_back() {
    for amount in [0u32, 1, 9, 10, 99, 100, 999, 1000] {
        let mut game = dealt_table();
        let msg = format!("!bet {}", amount);
        assert_eq!(
            handle_command(&mut game, "alice", &msg),
            Some(format!("alice bets {}.", amount))
        );
        assert_eq!(game.pot, amount);
    }
}

#[test]
fn refused_bet_needs_no_room_in_the_pot() {
    let mut game = dealt_table();
    game.pot = 4294967000;
    assert!(game.can_bet("bob", BetAction::Bet(500)));
    assert!(!game.can_bet("alice", BetAction::Bet(500)));
    assert!(game.can_bet("alice", BetAction::Bet(2000)));
    assert!(poker::command::command_allowed_for(&game, "bob", "!bet 500"));
    assert_eq!(game.process_bet("bob", BetAction::Bet(500)), "It's not your turn, bob.");
    assert_eq!(
        handle_command(&mut game, "alice", "!bet 2000"),
        Some("alice does not have enough chips.".to_string())
    );
    assert_eq!(game.pot, 4294967000);
    assert_eq!(game.current_turn, 0);
}
