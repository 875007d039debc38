//! The table: players, rounds, betting and the showdown.

use vstd::prelude::*;
use vstd::string::*;
use crate::cards::{Card, card_text, push_card, standard_deck, create_deck, shuffle_deck};
use crate::hand::{HandRank, best_hand_value, evaluate_best_hand, hand_text, push_hand_rank, rank_less};
use crate::text::{decimal, push_decimal};

verus! {

/// What a player does on their turn.
#[derive(Debug, PartialEq, Eq, Clone, Structural)]
pub enum BetAction {
    Bet(u32),
    Check,
    Fold,
    Call,
}

/// The betting rounds of a hand, in order.
#[derive(Debug, PartialEq, Eq, Clone, Copy, Structural)]
pub enum RoundStage {
    PreFlop,
    Flop,
    Turn,
    River,
    Showdown,
}

/// The name of a stage.
pub open spec fn stage_text(s: RoundStage) -> Seq<char> {
    match s {
        RoundStage::PreFlop => "PreFlop"@,
        RoundStage::Flop => "Flop"@,
        RoundStage::Turn => "Turn"@,
        RoundStage::River => "River"@,
        RoundStage::Showdown => "Showdown"@,
    }
}

impl RoundStage {
    /// The name of the stage as text.
    pub fn to_string(&self) -> (res: String)
        ensures
            res@ == stage_text(*self),
    {
        let s = match self {
            RoundStage::PreFlop => "PreFlop",
            RoundStage::Flop => "Flop",
            RoundStage::Turn => "Turn",
            RoundStage::River => "River",
            RoundStage::Showdown => "Showdown",
        };
        String::from_str(s)
    }
}

/// A seat at the table.
#[derive(Debug)]
pub struct Player {
    pub nick: String,
    pub chips: u32,
    pub hand: Vec<Card>,
    pub current_bet: u32,
    pub folded: bool,
}

/// The mathematical model of a player.
#[verifier::ext_equal]
pub struct PlayerView {
    pub nick: Seq<char>,
    pub chips: u32,
    pub hand: Seq<Card>,
    pub current_bet: u32,
    pub folded: bool,
}

impl View for Player {
    type V = PlayerView;

    open spec fn view(&self) -> PlayerView {
        PlayerView {
            nick: self.nick@,
            chips: self.chips,
            hand: self.hand@,
            current_bet: self.current_bet,
            folded: self.folded,
        }
    }
}

/// The state of the table. `stage` is `None` between rounds.
#[derive(Debug)]
pub struct PokerGame {
    pub players: Vec<Player>,
    pub deck: Vec<Card>,
    pub community_cards: Vec<Card>,
    pub pot: u32,
    pub current_bet: u32,
    pub current_turn: usize,
    pub stage: Option<RoundStage>,
}

/// The mathematical model of the table.
#[verifier::ext_equal]
pub struct GameView {
    pub players: Seq<PlayerView>,
    pub deck: Seq<Card>,
    pub community: Seq<Card>,
    pub pot: u32,
    pub current_bet: u32,
    pub current_turn: usize,
    pub stage: Option<RoundStage>,
}

impl View for PokerGame {
    type V = GameView;

    open spec fn view(&self) -> GameView {
        GameView {
            players: self.players@.map_values(|p: Player| p@),
            deck: self.deck@,
            community: self.community_cards@,
            pot: self.pot,
            current_bet: self.current_bet,
            current_turn: self.current_turn,
            stage: self.stage,
        }
    }
}

// ─── Specification of the table's rules ──────────────────────────────────

/// A newcomer: 1000 chips, no cards, no bet, not folded.
pub open spec fn new_player(nick: Seq<char>) -> PlayerView {
    PlayerView { nick, chips: 1000, hand: Seq::empty(), current_bet: 0, folded: false }
}

/// An empty table between rounds.
pub open spec fn empty_table() -> GameView {
    GameView {
        players: Seq::empty(),
        deck: Seq::empty(),
        community: Seq::empty(),
        pot: 0,
        current_bet: 0,
        current_turn: 0,
        stage: None,
    }
}

/// Some player at the table goes by `nick`.
pub open spec fn seated(g: GameView, nick: Seq<char>) -> bool {
    exists|i: int| 0 <= i < g.players.len() && #[trigger] g.players[i].nick == nick
}

/// Joining: refused for a nick already seated or while a round runs.
pub open spec fn join_result(g: GameView, nick: Seq<char>) -> (GameView, Seq<char>) {
    if seated(g, nick) {
        (g, nick + " is already in the game."@)
    } else if g.stage is Some {
        (g, "A round is already in progress. Please wait for the next round."@)
    } else {
        (GameView { players: g.players.push(new_player(nick)), ..g }, nick + " joined the game."@)
    }
}

/// Searching from offset `i` (1 to n) after the current turn, the first
/// seat whose player has not folded.
pub open spec fn next_active_from(g: GameView, i: int) -> Option<int>
    decreases g.players.len() + 1 - i,
{
    if i > g.players.len() || i < 1 {
        None
    } else {
        let idx = (g.current_turn + i) % (g.players.len() as int);
        if !g.players[idx].folded {
            Some(idx)
        } else {
            next_active_from(g, i + 1)
        }
    }
}

/// The turn passes to the next player, going round the table, who has
/// not folded; where every player has folded it stays where it is.
pub open spec fn advance_turn_result(g: GameView) -> GameView {
    match next_active_from(g, 1) {
        Some(idx) => GameView { current_turn: idx as usize, ..g },
        None => g,
    }
}

/// The offset from the current turn at which the search for the next
/// active seat stops: the first offset (1 to n) whose seat has a player
/// still in, or n where there is none.
pub open spec fn search_stop(g: GameView, i: int) -> int
    decreases g.players.len() + 1 - i,
{
    if i > g.players.len() || i < 1 {
        g.players.len() as int
    } else if !g.players[(g.current_turn + i) % (g.players.len() as int)].folded {
        i
    } else {
        search_stop(g, i + 1)
    }
}

/// Passing the turn stays within the machine's numbers: the turn points
/// at a seat, or adding the offsets that the search tries to it does not
/// overflow.
pub open spec fn turn_search_fits(g: GameView) -> bool {
    ||| g.current_turn < g.players.len()
    ||| g.players.len() == 0
    ||| g.current_turn + search_stop(g, 1) <= usize::MAX
}

/// The search never stops before the offset it starts from.
pub proof fn lemma_search_stop_bound(g: GameView, i: int)
    requires
        1 <= i <= g.players.len(),
    ensures
        i <= search_stop(g, i) <= g.players.len(),
    decreases g.players.len() + 1 - i,
{
    if i < g.players.len() {
        lemma_search_stop_bound(g, i + 1);
    } else {
        assert(search_stop(g, i + 1) == g.players.len());
    }
}

/// The table after the player on turn changes their record.
pub open spec fn with_current_player(g: GameView, p: PlayerView) -> GameView {
    GameView { players: g.players.update(g.current_turn as int, p), ..g }
}

/// What a call costs the player on turn: the difference between the
/// table's bet and their own, or nothing.
pub open spec fn call_amount(g: GameView) -> int {
    let p = g.players[g.current_turn as int];
    if g.current_bet > p.current_bet {
        g.current_bet - p.current_bet
    } else {
        0
    }
}

/// A bet or call that goes through: the player pays `amount` into the pot
/// and their bet on this street becomes `bet`.
pub open spec fn pay(g: GameView, amount: int, bet: int) -> GameView {
    let p = g.players[g.current_turn as int];
    GameView {
        pot: (g.pot + amount) as u32,
        ..with_current_player(
            g,
            PlayerView { chips: (p.chips - amount) as u32, current_bet: bet as u32, ..p },
        )
    }
}

/// The betting rules: what an action by `nick` does to the table and the
/// reply it gets.
pub open spec fn bet_result(g: GameView, nick: Seq<char>, action: BetAction) -> (GameView, Seq<char>) {
    let p = g.players[g.current_turn as int];
    if g.stage is None {
        (g, "No round in progress. Use !start to begin."@)
    } else if p.nick != nick {
        (g, "It's not your turn, "@ + nick + "."@)
    } else if p.folded {
        (g, nick + ", you have already folded."@)
    } else {
        match action {
            BetAction::Fold => (
                advance_turn_result(with_current_player(g, PlayerView { folded: true, ..p })),
                nick + " folds."@,
            ),
            BetAction::Bet(amount) => {
                if g.current_bet != 0 && amount < g.current_bet {
                    (g, "You must bet at least "@ + decimal(g.current_bet as nat) + "."@)
                } else if amount > p.chips {
                    (g, nick + " does not have enough chips."@)
                } else {
                    let paid = pay(g, amount as int, amount as int);
                    let after = if g.current_bet == 0 {
                        GameView { current_bet: amount, ..paid }
                    } else {
                        paid
                    };
                    (advance_turn_result(after), nick + " bets "@ + decimal(amount as nat) + "."@)
                }
            },
            BetAction::Call => {
                let amount = call_amount(g);
                if amount > p.chips {
                    (g, nick + " does not have enough chips to call."@)
                } else {
                    (
                        advance_turn_result(pay(g, amount, p.current_bet + amount)),
                        nick + " calls, betting "@ + decimal(amount as nat) + "."@,
                    )
                }
            },
            BetAction::Check => {
                if g.current_bet != 0 && p.current_bet < g.current_bet {
                    (
                        g,
                        "Cannot check, you need to call or bet "@ + decimal(g.current_bet as nat)
                            + "."@,
                    )
                } else {
                    (advance_turn_result(g), nick + " checks."@)
                }
            },
        }
    }
}

/// What an action by `nick` moves from the player on turn into the pot:
/// the stake of a bet or call that is accepted, and nothing for an action
/// that is refused (not their turn, already folded, a bet below the
/// table's bet or beyond their chips, a call beyond their chips) or that
/// pays nothing.
pub open spec fn bet_outlay(g: GameView, nick: Seq<char>, action: BetAction) -> int {
    let p = g.players[g.current_turn as int];
    if p.nick != nick || p.folded {
        0
    } else {
        match action {
            BetAction::Bet(amount) => if (g.current_bet != 0 && amount < g.current_bet) || amount
                > p.chips {
                0
            } else {
                amount as int
            },
            BetAction::Call => if call_amount(g) <= p.chips {
                call_amount(g)
            } else {
                0
            },
            _ => 0,
        }
    }
}

/// An action can be taken without running past the machine's limits:
/// while a round runs the turn points at a seat, and the pot can take
/// what an accepted action pays in.
pub open spec fn bet_allowed(g: GameView, nick: Seq<char>, action: BetAction) -> bool {
    g.stage is Some ==> {
        &&& g.current_turn < g.players.len()
        &&& g.pot + bet_outlay(g, nick, action) <= u32::MAX
    }
}

/// The chips of all the players together.
pub open spec fn chips_total(players: Seq<PlayerView>) -> int
    decreases players.len(),
{
    if players.len() == 0 {
        0
    } else {
        chips_total(players.drop_last()) + players.last().chips
    }
}

/// Dealing the hole cards: going round the table from the first seat,
/// each player takes the top two cards of the deck (its last two) while
/// it still holds two; everyone's bet is cleared and nobody has folded.
pub open spec fn deal_players(players: Seq<PlayerView>, deck: Seq<Card>) -> Seq<PlayerView> {
    Seq::new(
        players.len(),
        |i: int|
            {
                let top = deck.len() - 2 * i;
                PlayerView {
                    hand: if top >= 2 {
                        seq![deck[top - 1], deck[top - 2]]
                    } else {
                        Seq::empty()
                    },
                    current_bet: 0,
                    folded: false,
                    ..players[i]
                }
            },
    )
}

/// How many players get cards from a deck of `deck_len` cards.
pub open spec fn dealt_count(players: int, deck_len: int) -> int {
    if 2 * players <= deck_len {
        players
    } else {
        deck_len / 2
    }
}

/// The lines that show each player's hole cards.
pub open spec fn hands_text(ps: Seq<PlayerView>) -> Seq<char>
    decreases ps.len(),
{
    if ps.len() == 0 {
        Seq::empty()
    } else {
        hands_text(ps.drop_last()) + ps.last().nick + "'s hand: "@ + card_text(ps.last().hand[0])
            + " "@ + card_text(ps.last().hand[1]) + "\n"@
    }
}

/// Starting a round with the given (shuffled) deck: refused with fewer
/// than two players or while a round runs; otherwise the pot and bets
/// are cleared, the hole cards dealt and the pre-flop betting opens with
/// the first seat.
pub open spec fn start_result(g: GameView, deck: Seq<Card>) -> (GameView, Seq<char>) {
    if g.players.len() < 2 {
        (g, "Need at least 2 players to start."@)
    } else if g.stage is Some {
        (g, "Round already in progress."@)
    } else {
        let players = deal_players(g.players, deck);
        let dealt = dealt_count(players.len() as int, deck.len() as int);
        (
            GameView {
                players,
                deck: deck.take(deck.len() - 2 * dealt),
                community: Seq::empty(),
                pot: 0,
                current_bet: 0,
                current_turn: 0,
                stage: Some(RoundStage::PreFlop),
            },
            "Round started! Dealing hole cards.\n"@ + hands_text(players)
                + "PreFlop betting round begins. "@ + "It's "@ + players[0].nick + "'s turn."@,
        )
    }
}

/// A round can start with this deck without running out of cards for the
/// hands that are shown: where the start is not refused, every player
/// gets two cards.
pub open spec fn start_allowed(g: GameView, deck_len: int) -> bool {
    g.players.len() < 2 || g.stage is Some || 2 * g.players.len() <= deck_len
}

/// The first seat from `i` on whose player has not folded, or the number
/// of seats where there is none.
pub open spec fn first_active_from(players: Seq<PlayerView>, i: int) -> int
    decreases players.len() - i,
{
    if i >= players.len() || i < 0 {
        players.len() as int
    } else if !players[i].folded {
        i
    } else {
        first_active_from(players, i + 1)
    }
}

/// Some player has not folded.
pub open spec fn any_active(players: Seq<PlayerView>) -> bool {
    exists|i: int| 0 <= i < players.len() && !#[trigger] players[i].folded
}

/// Every bet of the street is cleared, the players' and the table's.
pub open spec fn clear_bets(g: GameView) -> GameView {
    GameView {
        players: g.players.map_values(|p: PlayerView| PlayerView { current_bet: 0, ..p }),
        current_bet: 0,
        ..g
    }
}

/// A new street opens: the stage moves on and the turn goes to the first
/// seat whose player has not folded.
pub open spec fn open_street(g: GameView, stage: RoundStage) -> GameView {
    GameView {
        stage: Some(stage),
        current_turn: first_active_from(g.players, 0) as usize,
        ..g
    }
}

/// The flop: three cards from the top of the deck replace the community
/// cards, where the deck still holds three.
pub open spec fn deal_flop(g: GameView) -> GameView {
    let n = g.deck.len() as int;
    if n >= 3 {
        GameView {
            community: seq![g.deck[n - 1], g.deck[n - 2], g.deck[n - 3]],
            deck: g.deck.take(n - 3),
            ..g
        }
    } else {
        g
    }
}

/// The turn or the river: one card from the top of the deck joins the
/// community cards, where the deck still holds one.
pub open spec fn deal_one(g: GameView) -> GameView {
    let n = g.deck.len() as int;
    if n >= 1 {
        GameView { community: g.community.push(g.deck[n - 1]), deck: g.deck.take(n - 1), ..g }
    } else {
        g
    }
}

/// The announcement of whose turn it is.
pub open spec fn turn_text(g: GameView) -> Seq<char> {
    "It's "@ + g.players[g.current_turn as int].nick + "'s turn."@
}

/// Moving the round on: the bets of the street are cleared, then the
/// flop, the turn or the river is dealt, or the showdown is held and the
/// table returns to the lobby.
pub open spec fn advance_result(g: GameView) -> (GameView, Seq<char>) {
    let g0 = clear_bets(g);
    match g.stage {
        Some(RoundStage::PreFlop) => {
            let g1 = open_street(deal_flop(g0), RoundStage::Flop);
            (
                g1,
                "Flop: "@ + card_text(g1.community[0]) + " "@ + card_text(g1.community[1]) + " "@
                    + card_text(g1.community[2]) + "\nFlop betting round begins. "@ + turn_text(g1),
            )
        },
        Some(RoundStage::Flop) => {
            let g1 = open_street(deal_one(g0), RoundStage::Turn);
            (
                g1,
                "Turn: "@ + card_text(g1.community.last()) + "\nTurn betting round begins. "@
                    + turn_text(g1),
            )
        },
        Some(RoundStage::Turn) => {
            let g1 = open_street(deal_one(g0), RoundStage::River);
            (
                g1,
                "River: "@ + card_text(g1.community.last()) + "\nRiver betting round begins. "@
                    + turn_text(g1),
            )
        },
        Some(RoundStage::River) => (GameView { stage: None, ..g0 }, showdown_text(g0)),
        _ => (g0, "Round already ended."@),
    }
}

/// The round can move on without running out of cards or players: the
/// flop needs three community cards, the turn and the river one, each
/// of them a player who has not folded, and the showdown five cards for
/// every player still in.
pub open spec fn advance_allowed(g: GameView) -> bool {
    match g.stage {
        Some(RoundStage::PreFlop) => (g.deck.len() >= 3 || g.community.len() >= 3) && any_active(
            g.players,
        ),
        Some(RoundStage::Flop) => (g.deck.len() >= 1 || g.community.len() >= 1) && any_active(
            g.players,
        ),
        Some(RoundStage::Turn) => (g.deck.len() >= 1 || g.community.len() >= 1) && any_active(
            g.players,
        ),
        Some(RoundStage::River) => showdown_allowed(g),
        _ => true,
    }
}

/// One line of the showdown: a player's nick and the value of their best hand.
pub type ShowdownEntry = (Seq<char>, (u8, Seq<u8>));

/// The players still in, in seat order, with the value of their best hand.
pub open spec fn showdown_entries(players: Seq<PlayerView>, community: Seq<Card>) -> Seq<
    ShowdownEntry,
>
    decreases players.len(),
{
    if players.len() == 0 {
        Seq::empty()
    } else {
        let rest = showdown_entries(players.drop_last(), community);
        let p = players.last();
        if !p.folded {
            rest.push((p.nick, best_hand_value(p.hand + community)))
        } else {
            rest
        }
    }
}

/// Searching from position `k`, the first entry whose hand is worse than
/// `v`, or the length where there is none.
pub open spec fn insert_position(sorted: Seq<ShowdownEntry>, v: (u8, Seq<u8>), k: int) -> int
    decreases sorted.len() - k,
{
    if k >= sorted.len() || k < 0 {
        sorted.len() as int
    } else if rank_less(sorted[k].1, v) {
        k
    } else {
        insert_position(sorted, v, k + 1)
    }
}

/// The entries ordered from the best hand down; entries with equal hands
/// keep their seat order.
pub open spec fn rank_entries(entries: Seq<ShowdownEntry>) -> Seq<ShowdownEntry>
    decreases entries.len(),
{
    if entries.len() == 0 {
        Seq::empty()
    } else {
        let sorted = rank_entries(entries.drop_last());
        let e = entries.last();
        sorted.insert(insert_position(sorted, e.1, 0), e)
    }
}

/// The lines of the showdown results.
pub open spec fn results_text(rs: Seq<ShowdownEntry>) -> Seq<char>
    decreases rs.len(),
{
    if rs.len() == 0 {
        Seq::empty()
    } else {
        results_text(rs.drop_last()) + rs.last().0 + ": "@ + hand_text(rs.last().1) + "\n"@
    }
}

/// The showdown: every player still in shows their best hand, the best
/// first, and the first of them (the earliest seat among equal hands)
/// is named the winner of the pot.
pub open spec fn showdown_text(g: GameView) -> Seq<char> {
    let entries = showdown_entries(g.players, g.community);
    if entries.len() == 0 {
        "All players folded. No showdown."@
    } else {
        let ranked = rank_entries(entries);
        "Showdown results:\n"@ + results_text(ranked) + "Winner: "@ + ranked[0].0
            + " wins the pot of "@ + decimal(g.pot as nat) + " chips!"@
    }
}

/// Every player still in has at least five cards to choose from.
pub open spec fn showdown_allowed(g: GameView) -> bool {
    forall|i: int|
        0 <= i < g.players.len() && !(#[trigger] g.players[i]).folded ==> g.players[i].hand.len()
            + g.community.len() >= 5
}

// ─── Text helpers ────────────────────────────────────────────────────────

/// Whether two strings hold the same characters.
pub fn same_text(a: &str, b: &str) -> (res: bool)
    ensures
        res == (a@ == b@),
{
    let n = a.unicode_len();
    if n != b.unicode_len() {
        return false;
    }
    let mut i: usize = 0;
    while i < n
        invariant
            n == a@.len(),
            n == b@.len(),
            i <= n,
            forall|j: int| 0 <= j < i ==> a@[j] == b@[j],
        decreases n - i,
    {
        if a.get_char(i) != b.get_char(i) {
            return false;
        }
        i = i + 1;
    }
    assert(a@ =~= b@);
    true
}

/// The text of `s` followed by that of `t`.
fn join2(s: &str, t: &str) -> (res: String)
    ensures
        res@ == s@ + t@,
{
    let mut out = String::from_str(s);
    out.append(t);
    out
}

/// The text of `s`, then the decimal notation of `n`, then `t`.
fn with_number(s: &str, n: u32, t: &str) -> (res: String)
    ensures
        res@ == s@ + decimal(n as nat) + t@,
{
    let mut out = String::from_str(s);
    push_decimal(&mut out, n);
    out.append(t);
    out
}

impl Player {
    /// A newcomer with 1000 chips.
    pub fn new(nick: &str) -> (res: Self)
        ensures
            res@ == new_player(nick@),
    {
        Player { nick: nick.to_owned(), chips: 1000, hand: Vec::new(), current_bet: 0, folded: false }
    }
}

impl PokerGame {
    /// An empty table between rounds.
    pub fn new() -> (res: Self)
        ensures
            res@ == empty_table(),
    {
        let g = PokerGame {
            players: Vec::new(),
            deck: Vec::new(),
            community_cards: Vec::new(),
            pot: 0,
            current_bet: 0,
            current_turn: 0,
            stage: None,
        };
        assert(g@ =~= empty_table());
        g
    }

    /// Join the game (only allowed when no round is in progress).
    pub fn join(&mut self, nick: &str) -> (res: String)
        ensures
            (final(self)@, res@) == join_result(old(self)@, nick@),
    {
        let ghost g = self@;
        let mut i: usize = 0;
        while i < self.players.len()
            invariant
                self@ == g,
                i <= self.players@.len(),
                forall|j: int| 0 <= j < i ==> #[trigger] g.players[j].nick != nick@,
            decreases self.players@.len() - i,
        {
            if same_text(self.players[i].nick.as_str(), nick) {
                assert(g.players[i as int].nick == nick@);
                return join2(nick, " is already in the game.");
            }
            i = i + 1;
        }
        if self.stage.is_some() {
            return String::from_str("A round is already in progress. Please wait for the next round.");
        }
        self.players.push(Player::new(nick));
        assert(self@ =~= join_result(g, nick@).0);
        join2(nick, " joined the game.")
    }
}

impl PokerGame {
    /// Rewrites the chips, bet and fold flag of the player on turn.
    fn update_current_player(&mut self, chips: u32, bet: u32, folded: bool)
        requires
            old(self).current_turn < old(self).players@.len(),
        ensures
            final(self)@ == with_current_player(
                old(self)@,
                PlayerView {
                    chips,
                    current_bet: bet,
                    folded,
                    ..old(self)@.players[old(self).current_turn as int]
                },
            ),
    {
        let ct = self.current_turn;
        let ghost g = self@;
        self.players[ct].chips = chips;
        self.players[ct].current_bet = bet;
        self.players[ct].folded = folded;
        assert(self@.players =~= with_current_player(
            g,
            PlayerView { chips, current_bet: bet, folded, ..g.players[ct as int] },
        ).players);
        assert(self@ =~= with_current_player(
            g,
            PlayerView { chips, current_bet: bet, folded, ..g.players[ct as int] },
        ));
    }

    /// Advance the turn pointer to the next active (non-folded) player.
    fn advance_turn(&mut self)
        requires
            turn_search_fits(old(self)@),
        ensures
            final(self)@ == advance_turn_result(old(self)@),
    {
        let ghost g = self@;
        let n = self.players.len();
        let ct = self.current_turn;
        let mut k: usize = 0;
        while k < n
            invariant
                self@ == g,
                g == old(self)@,
                n == g.players.len(),
                ct == g.current_turn,
                turn_search_fits(g),
                k <= n,
                next_active_from(g, 1) == next_active_from(g, k + 1),
                search_stop(g, 1) == search_stop(g, k + 1),
            decreases n - k,
        {
            let i = k + 1;
            proof {
                lemma_search_stop_bound(g, i as int);
            }
            let next = if ct < n {
                let gap = n - ct;
                let next = if i >= gap {
                    i - gap
                } else {
                    ct + i
                };
                proof {
                    let x = g.current_turn + i;
                    if i >= gap {
                        vstd::arithmetic::div_mod::lemma_fundamental_div_mod_converse(
                            x,
                            n as int,
                            1,
                            next as int,
                        );
                    } else {
                        vstd::arithmetic::div_mod::lemma_fundamental_div_mod_converse(
                            x,
                            n as int,
                            0,
                            next as int,
                        );
                    }
                }
                next
            } else {
                (ct + i) % n
            };
            assert(next == (g.current_turn + i) % (n as int));
            if !self.players[next].folded {
                assert(next_active_from(g, i as int) == Some(next as int));
                self.current_turn = next;
                assert(self@ =~= advance_turn_result(g));
                return;
            }
            k = k + 1;
        }
    }

    /// Process a betting action (only when a round is in progress).
    pub fn process_bet(&mut self, nick: &str, action: BetAction) -> (res: String)
        requires
            bet_allowed(old(self)@, nick@, action),
        ensures
            (final(self)@, res@) == bet_result(old(self)@, nick@, action),
    {
        let ghost g = self@;
        if self.stage.is_none() {
            return String::from_str("No round in progress. Use !start to begin.");
        }
        let ct = self.current_turn;
        if !same_text(self.players[ct].nick.as_str(), nick) {
            let mut msg = join2("It's not your turn, ", nick);
            msg.append(".");
            return msg;
        }
        if self.players[ct].folded {
            return join2(nick, ", you have already folded.");
        }
        let chips = self.players[ct].chips;
        let my_bet = self.players[ct].current_bet;
        match action {
            BetAction::Fold => {
                self.update_current_player(chips, my_bet, true);
                let msg = join2(nick, " folds.");
                self.advance_turn();
                msg
            },
            BetAction::Bet(amount) => {
                if self.current_bet == 0 {
                    if amount > chips {
                        return join2(nick, " does not have enough chips.");
                    }
                    self.update_current_player(chips - amount, amount, false);
                    self.pot = self.pot + amount;
                    self.current_bet = amount;
                    let mut msg = join2(nick, " bets ");
                    push_decimal(&mut msg, amount);
                    msg.append(".");
                    self.advance_turn();
                    msg
                } else {
                    if amount < self.current_bet {
                        return with_number("You must bet at least ", self.current_bet, ".");
                    }
                    if amount > chips {
                        return join2(nick, " does not have enough chips.");
                    }
                    self.update_current_player(chips - amount, amount, false);
                    self.pot = self.pot + amount;
                    let mut msg = join2(nick, " bets ");
                    push_decimal(&mut msg, amount);
                    msg.append(".");
                    self.advance_turn();
                    msg
                }
            },
            BetAction::Call => {
                let call = self.current_bet.saturating_sub(my_bet);
                if call > chips {
                    return join2(nick, " does not have enough chips to call.");
                }
                self.update_current_player(chips - call, my_bet + call, false);
                self.pot = self.pot + call;
                let mut msg = join2(nick, " calls, betting ");
                push_decimal(&mut msg, call);
                msg.append(".");
                self.advance_turn();
                msg
            },
            BetAction::Check => {
                if self.current_bet != 0 && my_bet < self.current_bet {
                    return with_number(
                        "Cannot check, you need to call or bet ",
                        self.current_bet,
                        ".",
                    );
                }
                let msg = join2(nick, " checks.");
                self.advance_turn();
                msg
            },
        }
    }
}

impl PokerGame {
    /// Deals the hole cards from `self.deck` to every player, seat by seat.
    fn deal_hole_cards(&mut self, Ghost(deck): Ghost<Seq<Card>>, Ghost(players): Ghost<Seq<PlayerView>>)
        requires
            old(self)@.players == players,
            old(self)@.deck == deck,
        ensures
            final(self)@.players == deal_players(players, deck),
            final(self)@.deck == deck.take(
                deck.len() - 2 * dealt_count(players.len() as int, deck.len() as int),
            ),
            final(self)@.community == old(self)@.community,
            final(self).pot == old(self).pot,
            final(self).current_bet == old(self).current_bet,
            final(self).current_turn == old(self).current_turn,
            final(self).stage == old(self).stage,
    {
        let n = self.players.len();
        let mut i: usize = 0;
        while i < n
            invariant
                n == players.len(),
                i <= n,
                self@.players.len() == n,
                forall|j: int| 0 <= j < i ==> #[trigger] self@.players[j] == deal_players(players, deck)[j],
                forall|j: int| i <= j < n ==> #[trigger] self@.players[j] == players[j],
                self@.deck == deck.take(deck.len() - 2 * dealt_count(i as int, deck.len() as int)),
                self@.community == old(self)@.community,
                self.pot == old(self).pot,
                self.current_bet == old(self).current_bet,
                self.current_turn == old(self).current_turn,
                self.stage == old(self).stage,
            decreases n - i,
        {
            let ghost before = self@;
            assert(before.players[i as int] == players[i as int]);
            proof {
                let len = deck.len() as int;
                if 2 * i <= len {
                    assert(dealt_count(i as int, len) == i);
                    assert(before.deck.len() == len - 2 * i);
                } else {
                    assert(dealt_count(i as int, len) == len / 2);
                    assert(before.deck.len() < 2);
                }
            }
            let mut hand: Vec<Card> = Vec::new();
            if self.deck.len() >= 2 {
                let a = self.deck.pop().unwrap();
                let b = self.deck.pop().unwrap();
                hand.push(a);
                hand.push(b);
            }
            proof {
                let top = deck.len() - 2 * i;
                if top >= 2 {
                    assert(hand@ =~= seq![deck[top - 1], deck[top - 2]]);
                } else {
                    assert(hand@ =~= Seq::<Card>::empty());
                }
            }
            let ghost h = hand@;
            self.players[i].hand = hand;
            self.players[i].folded = false;
            self.players[i].current_bet = 0;
            proof {
                let dealt = deal_players(players, deck);
                assert(self@.players[i as int] =~= dealt[i as int]);
                assert forall|j: int| 0 <= j < i + 1 implies #[trigger] self@.players[j] == dealt[j] by {
                    if j < i {
                        assert(self@.players[j] == before.players[j]);
                    }
                }
                assert forall|j: int| i + 1 <= j < n implies #[trigger] self@.players[j] == players[j] by {
                    assert(self@.players[j] == before.players[j]);
                }
                assert(self@.deck =~= deck.take(
                    deck.len() - 2 * dealt_count(i + 1, deck.len() as int),
                ));
            }
            i = i + 1;
        }
        assert(self@.players =~= deal_players(players, deck));
    }

    /// Start a new round with the given deck (requires at least 2 players).
    pub fn start_round_with_deck(&mut self, deck: Vec<Card>) -> (res: String)
        requires
            start_allowed(old(self)@, deck@.len() as int),
        ensures
            (final(self)@, res@) == start_result(old(self)@, deck@),
    {
        if self.players.len() < 2 {
            return String::from_str("Need at least 2 players to start.");
        }
        if self.stage.is_some() {
            return String::from_str("Round already in progress.");
        }
        let ghost g = self@;
        let ghost d = deck@;
        self.deck = deck;
        self.community_cards.clear();
        self.pot = 0;
        self.current_bet = 0;
        self.current_turn = 0;
        self.deal_hole_cards(Ghost(d), Ghost(g.players));
        self.stage = Some(RoundStage::PreFlop);
        let ghost dealt = deal_players(g.players, d);
        assert(self@ =~= start_result(g, d).0);
        let mut msg = String::from_str("Round started! Dealing hole cards.\n");
        let ghost head = msg@;
        let mut i: usize = 0;
        while i < self.players.len()
            invariant
                self@ == start_result(g, d).0,
                self@.players == dealt,
                dealt == deal_players(g.players, d),
                2 * g.players.len() <= d.len(),
                i <= dealt.len(),
                msg@ == head + hands_text(dealt.subrange(0, i as int)),
            decreases dealt.len() - i,
        {
            assert(self@.players[i as int] == self.players@[i as int]@);
            assert(dealt[i as int].hand.len() == 2);
            assert(self.players@[i as int].hand@.len() == 2);
            let p = &self.players[i];
            msg.append(p.nick.as_str());
            msg.append("'s hand: ");
            push_card(&mut msg, &p.hand[0]);
            msg.append(" ");
            push_card(&mut msg, &p.hand[1]);
            msg.append("\n");
            proof {
                let pre = dealt.subrange(0, i + 1);
                assert(pre.drop_last() =~= dealt.subrange(0, i as int));
                assert(msg@ =~= head + hands_text(pre));
            }
            i = i + 1;
        }
        assert(dealt.subrange(0, dealt.len() as int) =~= dealt);
        msg.append("PreFlop betting round begins. ");
        msg.append("It's ");
        msg.append(self.players[0].nick.as_str());
        msg.append("'s turn.");
        assert(msg@ =~= start_result(g, d).1);
        msg
    }
}

impl PokerGame {
    /// Start a new round (requires at least 2 players): a fresh deck is
    /// shuffled and the hole cards dealt from it.
    pub fn start_round(&mut self) -> (res: String)
        requires
            start_allowed(old(self)@, 52),
        ensures
            exists|deck: Seq<Card>|
                #![trigger start_result(old(self)@, deck)]
                deck.len() == 52 && deck.to_multiset() == standard_deck().to_multiset() && (
                final(self)@,
                res@,
            ) == start_result(old(self)@, deck),
    {
        let ghost g = self@;
        if self.players.len() < 2 || self.stage.is_some() {
            let res = self.start_round_with_deck(Vec::new());
            assert(start_result(g, standard_deck()) == start_result(g, Seq::empty()));
            return res;
        }
        let mut deck = create_deck();
        shuffle_deck(&mut deck);
        let ghost d = deck@;
        let res = self.start_round_with_deck(deck);
        assert(start_result(g, d) == (self@, res@));
        res
    }
}

/// The model of a list of showdown lines.
pub open spec fn entries_view(v: Seq<(String, HandRank)>) -> Seq<ShowdownEntry> {
    v.map_values(|e: (String, HandRank)| (e.0@, e.1@))
}

/// Ordering entries keeps their number.
pub proof fn lemma_rank_entries_len(entries: Seq<ShowdownEntry>)
    ensures
        rank_entries(entries).len() == entries.len(),
    decreases entries.len(),
{
    if entries.len() > 0 {
        lemma_rank_entries_len(entries.drop_last());
        lemma_insert_position_range(rank_entries(entries.drop_last()), entries.last().1, 0);
    }
}

/// The insertion point lies within the list.
pub proof fn lemma_insert_position_range(sorted: Seq<ShowdownEntry>, v: (u8, Seq<u8>), k: int)
    requires
        0 <= k,
    ensures
        k <= insert_position(sorted, v, k) <= sorted.len() || (k > sorted.len()
            && insert_position(sorted, v, k) == sorted.len()),
    decreases sorted.len() - k,
{
    if k < sorted.len() {
        lemma_insert_position_range(sorted, v, k + 1);
    }
}

/// Places `entry` into `ranked` after every entry whose hand is at least
/// as good.
fn insert_ranked(ranked: &mut Vec<(String, HandRank)>, entry: (String, HandRank))
    ensures
        entries_view(final(ranked)@) == entries_view(old(ranked)@).insert(
            insert_position(entries_view(old(ranked)@), entry.1@, 0),
            (entry.0@, entry.1@),
        ),
{
    let ghost sorted = entries_view(ranked@);
    let mut k: usize = 0;
    while k < ranked.len() && !ranked[k].1.less_than(&entry.1)
        invariant
            k <= ranked@.len(),
            sorted == entries_view(ranked@),
            insert_position(sorted, entry.1@, 0) == insert_position(sorted, entry.1@, k as int),
        decreases ranked@.len() - k,
    {
        k = k + 1;
    }
    proof {
        lemma_insert_position_range(sorted, entry.1@, k as int);
    }
    let ghost e = (entry.0@, entry.1@);
    ranked.insert(k, entry);
    assert(entries_view(ranked@) =~= sorted.insert(k as int, e));
}

/// Appends the lines `nick: hand` of the ranked entries to `out`.
fn push_results(out: &mut String, ranked: &Vec<(String, HandRank)>)
    ensures
        final(out)@ == old(out)@ + results_text(entries_view(ranked@)),
{
    let ghost rs = entries_view(ranked@);
    let ghost head = out@;
    let mut i: usize = 0;
    while i < ranked.len()
        invariant
            i <= ranked@.len(),
            rs == entries_view(ranked@),
            out@ == head + results_text(rs.subrange(0, i as int)),
        decreases ranked@.len() - i,
    {
        out.append(ranked[i].0.as_str());
        out.append(": ");
        push_hand_rank(out, &ranked[i].1);
        out.append("\n");
        proof {
            let pre = rs.subrange(0, i + 1);
            assert(pre.drop_last() =~= rs.subrange(0, i as int));
            assert(out@ =~= head + results_text(pre));
        }
        i = i + 1;
    }
    assert(rs.subrange(0, rs.len() as int) =~= rs);
}

impl PokerGame {
    /// At showdown, evaluate each active (non-folded) player's hand and
    /// determine a winner.
    pub fn showdown(&self) -> (res: String)
        requires
            showdown_allowed(self@),
        ensures
            res@ == showdown_text(self@),
    {
        let ghost g = self@;
        let mut ranked: Vec<(String, HandRank)> = Vec::new();
        let mut i: usize = 0;
        while i < self.players.len()
            invariant
                g == self@,
                showdown_allowed(g),
                i <= g.players.len(),
                entries_view(ranked@) == rank_entries(
                    showdown_entries(g.players.subrange(0, i as int), g.community),
                ),
            decreases g.players.len() - i,
        {
            let p = &self.players[i];
            let ghost pre = g.players.subrange(0, i + 1);
            assert(pre.drop_last() =~= g.players.subrange(0, i as int));
            assert(pre.last() == g.players[i as int]);
            let ghost rest = showdown_entries(g.players.subrange(0, i as int), g.community);
            assert(g.players[i as int] == self.players@[i as int]@);
            if !p.folded {
                assert(g.players[i as int].hand.len() + g.community.len() >= 5);
                let best = evaluate_best_hand(p.hand.as_slice(), self.community_cards.as_slice());
                let nick = p.nick.clone();
                let ghost e: ShowdownEntry = (nick@, best@);
                assert(showdown_entries(pre, g.community) == rest.push(e));
                assert(rest.push(e).drop_last() =~= rest);
                insert_ranked(&mut ranked, (nick, best));
            }
            i = i + 1;
        }
        assert(g.players.subrange(0, g.players.len() as int) =~= g.players);
        let ghost entries = showdown_entries(g.players, g.community);
        proof {
            lemma_rank_entries_len(entries);
        }
        if ranked.len() == 0 {
            return String::from_str("All players folded. No showdown.");
        }
        let mut msg = String::from_str("Showdown results:\n");
        push_results(&mut msg, &ranked);
        msg.append("Winner: ");
        msg.append(ranked[0].0.as_str());
        msg.append(" wins the pot of ");
        push_decimal(&mut msg, self.pot);
        msg.append(" chips!");
        assert(msg@ =~= showdown_text(g));
        msg
    }
}

/// Where some player from seat `k` on has not folded, the search for the
/// first such seat ends at a seat.
pub proof fn lemma_first_active_found(players: Seq<PlayerView>, k: int, w: int)
    requires
        0 <= k <= w < players.len(),
        !players[w].folded,
    ensures
        k <= first_active_from(players, k) <= w,
        !players[first_active_from(players, k)].folded,
    decreases w - k,
{
    if k < w && players[k].folded {
        lemma_first_active_found(players, k + 1, w);
    }
}

impl PokerGame {
    /// Clears every bet of the street, the players' and the table's.
    fn clear_bets(&mut self)
        ensures
            final(self)@ == clear_bets(old(self)@),
    {
        let ghost g = self@;
        let n = self.players.len();
        let mut i: usize = 0;
        while i < n
            invariant
                g == old(self)@,
                n == g.players.len(),
                i <= n,
                self@.players.len() == n,
                forall|j: int|
                    0 <= j < i ==> #[trigger] self@.players[j] == (PlayerView {
                        current_bet: 0,
                        ..g.players[j]
                    }),
                forall|j: int| i <= j < n ==> #[trigger] self@.players[j] == g.players[j],
                self@.deck == g.deck,
                self@.community == g.community,
                self.pot == g.pot,
                self.current_bet == g.current_bet,
                self.current_turn == g.current_turn,
                self.stage == g.stage,
            decreases n - i,
        {
            let ghost before = self@;
            assert(before.players[i as int] == g.players[i as int]);
            self.players[i].current_bet = 0;
            proof {
                assert(self@.players[i as int] =~= PlayerView { current_bet: 0, ..g.players[i as int] });
                assert forall|j: int| 0 <= j < i + 1 implies #[trigger] self@.players[j]
                    == (PlayerView { current_bet: 0, ..g.players[j] }) by {
                    if j < i {
                        assert(self@.players[j] == before.players[j]);
                    }
                }
                assert forall|j: int| i + 1 <= j < n implies #[trigger] self@.players[j]
                    == g.players[j] by {
                    assert(self@.players[j] == before.players[j]);
                }
            }
            i = i + 1;
        }
        self.current_bet = 0;
        assert(self@.players =~= clear_bets(g).players);
        assert(self@ =~= clear_bets(g));
    }

    /// Opens a street: the turn goes to the first seat whose player has
    /// not folded.
    fn open_street(&mut self, stage: RoundStage)
        requires
            any_active(old(self)@.players),
        ensures
            final(self)@ == open_street(old(self)@, stage),
            final(self).current_turn < final(self)@.players.len(),
    {
        let ghost g = self@;
        self.stage = Some(stage);
        self.current_turn = 0;
        proof {
            let w = choose|i: int| 0 <= i < g.players.len() && !#[trigger] g.players[i].folded;
            lemma_first_active_found(g.players, 0, w);
        }
        while self.current_turn < self.players.len() && self.players[self.current_turn].folded
            invariant
                self@ == (GameView { stage: Some(stage), current_turn: self.current_turn, ..g }),
                g == old(self)@,
                first_active_from(g.players, 0) == first_active_from(
                    g.players,
                    self.current_turn as int,
                ),
                self.current_turn <= first_active_from(g.players, 0) < g.players.len(),
                !g.players[first_active_from(g.players, 0)].folded,
            decreases g.players.len() - self.current_turn,
        {
            assert(self@.players[self.current_turn as int] == self.players@[self.current_turn as int]@);
            self.current_turn = self.current_turn + 1;
        }
        assert(self@ =~= open_street(g, stage));
    }

    /// Takes the top card of the deck into the community cards.
    fn deal_community_card(&mut self)
        requires
            old(self).deck@.len() >= 1,
        ensures
            final(self)@ == (GameView {
                community: old(self)@.community.push(
                    old(self)@.deck[old(self)@.deck.len() - 1],
                ),
                deck: old(self)@.deck.take(old(self)@.deck.len() - 1),
                ..old(self)@
            }),
    {
        let ghost g = self@;
        let c = self.deck.pop().unwrap();
        self.community_cards.push(c);
        assert(self@.deck =~= g.deck.take(g.deck.len() - 1));
        assert(self@ =~= (GameView {
            community: g.community.push(g.deck[g.deck.len() - 1]),
            deck: g.deck.take(g.deck.len() - 1),
            ..g
        }));
    }

    /// Advance the game stage (PreFlop, Flop, Turn, River, Showdown); the
    /// betting of each street is cleared first.
    pub fn advance_stage(&mut self) -> (res: String)
        requires
            advance_allowed(old(self)@),
        ensures
            (final(self)@, res@) == advance_result(old(self)@),
    {
        let ghost g = self@;
        self.clear_bets();
        let ghost g0 = self@;
        assert(g0.players.len() == g.players.len());
        assert forall|i: int| 0 <= i < g.players.len() implies #[trigger] g0.players[i].folded
            == g.players[i].folded && g0.players[i].hand == g.players[i].hand by {
        }
        proof {
            if any_active(g.players) {
                let w = choose|i: int| 0 <= i < g.players.len() && !#[trigger] g.players[i].folded;
                assert(!g0.players[w].folded);
            }
        }
        match self.stage {
            Some(RoundStage::PreFlop) => {
                if self.deck.len() >= 3 {
                    self.community_cards.clear();
                    self.deal_community_card();
                    self.deal_community_card();
                    self.deal_community_card();
                    assert(self@ =~= deal_flop(g0));
                }
                assert(self@ == deal_flop(g0));
                self.open_street(RoundStage::Flop);
                let mut msg = String::from_str("Flop: ");
                push_card(&mut msg, &self.community_cards[0]);
                msg.append(" ");
                push_card(&mut msg, &self.community_cards[1]);
                msg.append(" ");
                push_card(&mut msg, &self.community_cards[2]);
                msg.append("\nFlop betting round begins. ");
                self.push_turn(&mut msg);
                assert(msg@ =~= advance_result(g).1);
                msg
            },
            Some(RoundStage::Flop) => {
                if self.deck.len() >= 1 {
                    self.deal_community_card();
                }
                assert(self@ == deal_one(g0));
                self.open_street(RoundStage::Turn);
                let mut msg = String::from_str("Turn: ");
                push_card(&mut msg, &self.community_cards[self.community_cards.len() - 1]);
                msg.append("\nTurn betting round begins. ");
                self.push_turn(&mut msg);
                assert(msg@ =~= advance_result(g).1);
                msg
            },
            Some(RoundStage::Turn) => {
                if self.deck.len() >= 1 {
                    self.deal_community_card();
                }
                assert(self@ == deal_one(g0));
                self.open_street(RoundStage::River);
                let mut msg = String::from_str("River: ");
                push_card(&mut msg, &self.community_cards[self.community_cards.len() - 1]);
                msg.append("\nRiver betting round begins. ");
                self.push_turn(&mut msg);
                assert(msg@ =~= advance_result(g).1);
                msg
            },
            Some(RoundStage::River) => {
                self.stage = Some(RoundStage::Showdown);
                assert(showdown_allowed(self@));
                let result = self.showdown();
                assert(showdown_text(self@) == showdown_text(g0));
                self.stage = None;
                assert(self@ =~= advance_result(g).0);
                result
            },
            _ => String::from_str("Round already ended."),
        }
    }

    /// Appends the announcement of whose turn it is.
    fn push_turn(&self, out: &mut String)
        requires
            self.current_turn < self@.players.len(),
        ensures
            final(out)@ == old(out)@ + turn_text(self@),
    {
        assert(self@.players[self.current_turn as int] == self.players@[self.current_turn as int]@);
        out.append("It's ");
        out.append(self.players[self.current_turn].nick.as_str());
        out.append("'s turn.");
        assert(final(out)@ =~= old(out)@ + turn_text(self@));
    }
}

impl PokerGame {
    /// Whether a round can start from a fresh deck without running short
    /// of cards (see `start_allowed`).
    pub fn can_start(&self) -> (res: bool)
        ensures
            res == start_allowed(self@, 52),
    {
        self.players.len() < 2 || self.stage.is_some() || self.players.len() <= 26
    }

    /// Whether `action` by `nick` can be processed within the machine's
    /// limits (see `bet_allowed`).
    pub fn can_bet(&self, nick: &str, action: BetAction) -> (res: bool)
        ensures
            res == bet_allowed(self@, nick@, action),
    {
        if self.stage.is_none() {
            return true;
        }
        if self.current_turn >= self.players.len() {
            return false;
        }
        let ghost g = self@;
        assert(g.players[self.current_turn as int] == self.players@[self.current_turn as int]@);
        let p = &self.players[self.current_turn];
        if !same_text(p.nick.as_str(), nick) || p.folded {
            return true;
        }
        let outlay: u64 = match action {
            BetAction::Bet(amount) => if (self.current_bet != 0 && amount < self.current_bet)
                || amount > p.chips {
                0
            } else {
                amount as u64
            },
            BetAction::Call => {
                let call = self.current_bet.saturating_sub(p.current_bet);
                if call <= p.chips {
                    call as u64
                } else {
                    0
                }
            },
            _ => 0,
        };
        self.pot as u64 + outlay <= 0xffff_ffff
    }

    /// Whether some player has not folded.
    fn has_active_player(&self) -> (res: bool)
        ensures
            res == any_active(self@.players),
    {
        let ghost g = self@;
        let mut i: usize = 0;
        while i < self.players.len()
            invariant
                g == self@,
                i <= g.players.len(),
                forall|j: int| 0 <= j < i ==> #[trigger] g.players[j].folded,
            decreases g.players.len() - i,
        {
            assert(g.players[i as int] == self.players@[i as int]@);
            if !self.players[i].folded {
                assert(!g.players[i as int].folded);
                return true;
            }
            i = i + 1;
        }
        false
    }

    /// Whether every player still in has five cards to choose from.
    fn showdown_possible(&self) -> (res: bool)
        ensures
            res == showdown_allowed(self@),
    {
        let ghost g = self@;
        let m = self.community_cards.len();
        let mut i: usize = 0;
        while i < self.players.len()
            invariant
                g == self@,
                m == g.community.len(),
                i <= g.players.len(),
                forall|j: int|
                    0 <= j < i && !(#[trigger] g.players[j]).folded ==> g.players[j].hand.len()
                        + g.community.len() >= 5,
            decreases g.players.len() - i,
        {
            assert(g.players[i as int] == self.players@[i as int]@);
            let p = &self.players[i];
            if !p.folded && p.hand.len() < 5 && m < 5 - p.hand.len() {
                return false;
            }
            i = i + 1;
        }
        true
    }

    /// Whether the round can move on without running short of cards or
    /// players (see `advance_allowed`).
    pub fn can_advance(&self) -> (res: bool)
        ensures
            res == advance_allowed(self@),
    {
        match self.stage {
            Some(RoundStage::PreFlop) => (self.deck.len() >= 3 || self.community_cards.len() >= 3)
                && self.has_active_player(),
            Some(RoundStage::Flop) => (self.deck.len() >= 1 || self.community_cards.len() >= 1)
                && self.has_active_player(),
            Some(RoundStage::Turn) => (self.deck.len() >= 1 || self.community_cards.len() >= 1)
                && self.has_active_player(),
            Some(RoundStage::River) => self.showdown_possible(),
            _ => true,
        }
    }
}

} // verus!
