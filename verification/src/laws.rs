//! Properties of the table's rules that hold across operations.

use vstd::prelude::*;
use vstd::seq_lib::lemma_multiset_commutative;
use crate::cards::Card;
use crate::hand::{hand_value, rank_count, increasing_within, best_hand_value, lemma_best_hand_monotone, lemma_best_hand_order_free, lemma_rank_order, rank_less};
use crate::game::{
    BetAction, advance_allowed, any_active, first_active_from, GameView, PlayerView, RoundStage, ShowdownEntry, insert_position, rank_entries,
    showdown_entries, advance_result, advance_turn_result,
    bet_allowed, bet_result, call_amount, chips_total, clear_bets, deal_flop, deal_one,
    deal_players, dealt_count, join_result, new_player, next_active_from, open_street, pay,
    start_result, with_current_player,
};

verus! {

// ─── Chips ───────────────────────────────────────────────────────────────

/// Replacing one player changes the chip total by the difference.
pub proof fn lemma_chips_total_update(ps: Seq<PlayerView>, i: int, p: PlayerView)
    requires
        0 <= i < ps.len(),
    ensures
        chips_total(ps.update(i, p)) == chips_total(ps) - ps[i].chips + p.chips,
    decreases ps.len(),
{
    let q = ps.update(i, p);
    assert(q.drop_last() =~= if i < ps.len() - 1 {
        ps.drop_last().update(i, p)
    } else {
        ps.drop_last()
    });
    if i < ps.len() - 1 {
        lemma_chips_total_update(ps.drop_last(), i, p);
    }
}

/// Passing the turn changes nothing but whose turn it is.
pub proof fn lemma_advance_turn_keeps_table(g: GameView)
    ensures
        advance_turn_result(g) == (GameView { current_turn: advance_turn_result(g).current_turn, ..g }),
{
}

/// Betting moves chips between a player and the pot and nowhere else:
/// the chips of all players plus the pot stay the same after any action.
pub proof fn lemma_bet_conserves_chips(g: GameView, nick: Seq<char>, action: BetAction)
    requires
        bet_allowed(g, nick, action),
    ensures
        chips_total(bet_result(g, nick, action).0.players) + bet_result(g, nick, action).0.pot
            == chips_total(g.players) + g.pot,
{
    if g.stage is Some {
        let ct = g.current_turn as int;
        let p = g.players[ct];
        match action {
            BetAction::Fold => {
                lemma_chips_total_update(g.players, ct, PlayerView { folded: true, ..p });
            },
            BetAction::Bet(amount) => {
                lemma_chips_total_update(
                    g.players,
                    ct,
                    PlayerView { chips: (p.chips - amount) as u32, current_bet: amount, ..p },
                );
            },
            BetAction::Call => {
                let amount = call_amount(g);
                lemma_chips_total_update(
                    g.players,
                    ct,
                    PlayerView {
                        chips: (p.chips - amount) as u32,
                        current_bet: (p.current_bet + amount) as u32,
                        ..p
                    },
                );
            },
            BetAction::Check => {},
        }
    }
}

/// An action never touches the cards: the deck, the hands and the
/// community cards stay as they are.
pub proof fn lemma_bet_keeps_cards(g: GameView, nick: Seq<char>, action: BetAction)
    requires
        g.stage is Some ==> g.current_turn < g.players.len(),
    ensures
        bet_result(g, nick, action).0.stage == g.stage,
        bet_result(g, nick, action).0.deck == g.deck,
        bet_result(g, nick, action).0.community == g.community,
        bet_result(g, nick, action).0.players.len() == g.players.len(),
        forall|i: int|
            0 <= i < g.players.len() ==> #[trigger] bet_result(g, nick, action).0.players[i].hand
                == g.players[i].hand,
{
}

/// After an accepted action the turn rests with a player who has not
/// folded, where one is left; where none is left it does not move.
pub proof fn lemma_turn_goes_to_active_player(g: GameView)
    requires
        g.current_turn < g.players.len() <= usize::MAX,
    ensures
        (exists|i: int| 0 <= i < g.players.len() && !#[trigger] g.players[i].folded) ==> !g.players[advance_turn_result(
            g,
        ).current_turn as int].folded,
        (forall|i: int| 0 <= i < g.players.len() ==> #[trigger] g.players[i].folded) ==> advance_turn_result(g) == g,
{
    lemma_next_active(g, 1);
    if exists|i: int| 0 <= i < g.players.len() && !#[trigger] g.players[i].folded {
        let w = choose|i: int| 0 <= i < g.players.len() && !#[trigger] g.players[i].folded;
        let n = g.players.len() as int;
        let ct = g.current_turn as int;
        // the offset from the current seat that reaches seat w
        let off = if w > ct { w - ct } else { w - ct + n };
        assert(1 <= off <= n);
        assert((ct + off) % n == w) by {
            if w > ct {
                vstd::arithmetic::div_mod::lemma_fundamental_div_mod_converse(ct + off, n, 0, w);
            } else {
                vstd::arithmetic::div_mod::lemma_fundamental_div_mod_converse(ct + off, n, 1, w);
            }
        }
        lemma_next_active_found(g, 1, off);
        let idx = next_active_from(g, 1)->Some_0;
        assert(0 <= idx < g.players.len() && !g.players[idx].folded);
        assert(advance_turn_result(g).current_turn == idx);
    }
}

/// The search for the next active seat yields a seat whose player has not
/// folded, or nothing where every seat it looks at has folded.
proof fn lemma_next_active(g: GameView, i: int)
    requires
        g.current_turn < g.players.len(),
        1 <= i,
    ensures
        next_active_from(g, i) matches Some(idx) ==> 0 <= idx < g.players.len()
            && !g.players[idx].folded,
    decreases g.players.len() + 1 - i,
{
    if i <= g.players.len() {
        lemma_next_active(g, i + 1);
    }
}

/// Where the seat at offset `off` has a player still in, the search from
/// offset `i` finds a seat.
proof fn lemma_next_active_found(g: GameView, i: int, off: int)
    requires
        g.current_turn < g.players.len(),
        1 <= i <= off <= g.players.len(),
        !g.players[(g.current_turn + off) % (g.players.len() as int)].folded,
    ensures
        next_active_from(g, i) is Some,
    decreases off - i,
{
    if i < off {
        lemma_next_active_found(g, i + 1, off);
    }
}

// ─── Seats ───────────────────────────────────────────────────────────────

/// No two players share a nick.
pub open spec fn nicks_distinct(ps: Seq<PlayerView>) -> bool {
    forall|i: int, j: int|
        0 <= i < ps.len() && 0 <= j < ps.len() && i != j ==> #[trigger] ps[i].nick
            != #[trigger] ps[j].nick
}

/// Joining never seats a nick twice.
pub proof fn lemma_join_keeps_nicks_distinct(g: GameView, nick: Seq<char>)
    requires
        nicks_distinct(g.players),
    ensures
        nicks_distinct(join_result(g, nick).0.players),
{
    let ps = join_result(g, nick).0.players;
    if ps.len() > g.players.len() {
        assert forall|i: int, j: int|
            0 <= i < ps.len() && 0 <= j < ps.len() && i != j implies #[trigger] ps[i].nick
            != #[trigger] ps[j].nick by {
            if i < g.players.len() && j < g.players.len() {
                assert(ps[i] == g.players[i] && ps[j] == g.players[j]);
            } else if i < g.players.len() {
                assert(ps[i] == g.players[i]);
            } else {
                assert(ps[j] == g.players[j]);
            }
        }
    }
}

/// A refused join changes nothing; an accepted one adds one newcomer at
/// the end of the table and changes nothing else.
pub proof fn lemma_join_appends(g: GameView, nick: Seq<char>)
    ensures
        join_result(g, nick).0 == g || join_result(g, nick).0 == (GameView {
            players: g.players.push(new_player(nick)),
            ..g
        }),
{
}

// ─── Stages ──────────────────────────────────────────────────────────────

/// The next stage after `s`, `None` standing for the lobby.
pub open spec fn next_stage(s: Option<RoundStage>) -> Option<RoundStage> {
    match s {
        Some(RoundStage::PreFlop) => Some(RoundStage::Flop),
        Some(RoundStage::Flop) => Some(RoundStage::Turn),
        Some(RoundStage::Turn) => Some(RoundStage::River),
        _ => None,
    }
}

/// Each move of the round goes one stage on: pre-flop, flop, turn,
/// river, then back to the lobby after the showdown.
pub proof fn lemma_advance_stage_order(g: GameView)
    requires
        g.stage != Some(RoundStage::Showdown),
    ensures
        advance_result(g).0.stage == next_stage(g.stage),
        advance_result(g).0.current_bet == 0,
        forall|i: int|
            0 <= i < advance_result(g).0.players.len() ==> (#[trigger] advance_result(
                g,
            ).0.players[i]).current_bet == 0,
{
}

/// A started round is in its pre-flop stage with an empty pot.
pub proof fn lemma_start_opens_preflop(g: GameView, deck: Seq<Card>)
    requires
        g.players.len() >= 2,
        g.stage is None,
    ensures
        start_result(g, deck).0.stage == Some(RoundStage::PreFlop),
        start_result(g, deck).0.pot == 0,
        start_result(g, deck).0.current_turn == 0,
        start_result(g, deck).0.players.len() == g.players.len(),
{
}

// ─── Cards ───────────────────────────────────────────────────────────────

/// The hole cards of all the players, seat by seat.
pub open spec fn all_hands(ps: Seq<PlayerView>) -> Seq<Card>
    decreases ps.len(),
{
    if ps.len() == 0 {
        Seq::empty()
    } else {
        all_hands(ps.drop_last()) + ps.last().hand
    }
}

/// Every card on the table: the deck, the hands and the community cards.
pub open spec fn cards_in_play(g: GameView) -> Seq<Card> {
    g.deck + all_hands(g.players) + g.community
}

/// Dealing takes the hands, two by two, from the top of the deck, for as
/// long as it holds two cards.
proof fn lemma_dealt_hands(ps: Seq<PlayerView>, d: Seq<Card>)
    ensures
        all_hands(deal_players(ps, d)) =~= d.subrange(
            d.len() - 2 * dealt_count(ps.len() as int, d.len() as int),
            d.len() as int,
        ).reverse(),
    decreases ps.len(),
{
    let l = d.len() as int;
    let n = ps.len() as int;
    if n > 0 {
        let dealt = deal_players(ps, d);
        assert(dealt.drop_last() =~= deal_players(ps.drop_last(), d));
        lemma_dealt_hands(ps.drop_last(), d);
        if 2 * n <= l {
            assert(dealt_count(n - 1, l) == n - 1);
            assert(dealt.last().hand =~= seq![d[l - 2 * n + 1], d[l - 2 * n]]);
            assert(d.subrange(l - 2 * n, l).reverse() =~= d.subrange(l - 2 * n + 2, l).reverse()
                + seq![d[l - 2 * n + 1], d[l - 2 * n]]);
        } else {
            assert(dealt_count(n - 1, l) == l / 2);
            assert(dealt.last().hand =~= Seq::<Card>::empty());
        }
    } else {
        assert(d.subrange(l, l).reverse() =~= Seq::<Card>::empty());
    }
}

/// A round that starts deals from its deck and loses no card: the cards
/// on the table are those of the deck, in some arrangement.
pub proof fn lemma_start_deals_the_deck(g: GameView, deck: Seq<Card>)
    requires
        g.players.len() >= 2,
        g.stage is None,
    ensures
        cards_in_play(start_result(g, deck).0).to_multiset() == deck.to_multiset(),
{
    broadcast use lemma_multiset_commutative;

    let l = deck.len() as int;
    let n = g.players.len() as int;
    let k = dealt_count(n, l);
    let g1 = start_result(g, deck).0;
    lemma_dealt_hands(g.players, deck);
    let top = deck.subrange(l - 2 * k, l);
    top.lemma_reverse_to_multiset();
    assert(deck =~= deck.take(l - 2 * k) + top);
    assert(cards_in_play(g1) =~= deck.take(l - 2 * k) + top.reverse() + Seq::<Card>::empty());
    assert(cards_in_play(g1).to_multiset() =~= deck.to_multiset());
}

/// Clearing the bets leaves the hands as they are.
proof fn lemma_clear_bets_hands(ps: Seq<PlayerView>)
    ensures
        all_hands(ps.map_values(|p: PlayerView| PlayerView { current_bet: 0, ..p })) == all_hands(
            ps,
        ),
    decreases ps.len(),
{
    if ps.len() > 0 {
        let f = |p: PlayerView| PlayerView { current_bet: 0, ..p };
        assert(ps.map_values(f).drop_last() =~= ps.drop_last().map_values(f));
        lemma_clear_bets_hands(ps.drop_last());
    }
}

/// Moving the round on deals from the deck onto the board and loses no
/// card, except where the flop is dealt over community cards that are
/// already there.
pub proof fn lemma_advance_keeps_cards(g: GameView)
    requires
        g.stage == Some(RoundStage::PreFlop) ==> g.community.len() == 0,
    ensures
        cards_in_play(advance_result(g).0).to_multiset() == cards_in_play(g).to_multiset(),
{
    broadcast use lemma_multiset_commutative;

    let g0 = clear_bets(g);
    lemma_clear_bets_hands(g.players);
    let h = all_hands(g.players);
    assert(all_hands(g0.players) == h);
    let n = g.deck.len() as int;
    match g.stage {
        Some(RoundStage::PreFlop) => {
            let g1 = open_street(deal_flop(g0), RoundStage::Flop);
            if n >= 3 {
                let top = g.deck.subrange(n - 3, n);
                top.lemma_reverse_to_multiset();
                assert(g.deck =~= g.deck.take(n - 3) + top);
                assert(g1.community =~= top.reverse());
                assert(g.community =~= Seq::<Card>::empty());
                assert(cards_in_play(g) =~= g.deck.take(n - 3) + top + h + Seq::<Card>::empty());
                assert(cards_in_play(g1).to_multiset() =~= cards_in_play(g).to_multiset());
            } else {
                assert(cards_in_play(g1) == cards_in_play(g));
            }
        },
        Some(RoundStage::Flop) | Some(RoundStage::Turn) => {
            let stage = if g.stage == Some(RoundStage::Flop) {
                RoundStage::Turn
            } else {
                RoundStage::River
            };
            let g1 = open_street(deal_one(g0), stage);
            if n >= 1 {
                let x = g.deck[n - 1];
                assert(g.deck =~= g.deck.take(n - 1) + seq![x]);
                assert(g1.community =~= g.community + seq![x]);
                assert(cards_in_play(g1).to_multiset() =~= cards_in_play(g).to_multiset());
            } else {
                assert(cards_in_play(g1) == cards_in_play(g));
            }
        },
        _ => {
            assert(cards_in_play(advance_result(g).0) == cards_in_play(g));
        },
    }
}

// ─── Showdown ────────────────────────────────────────────────────────────

/// The entries run from the best hand down.
pub open spec fn ranked_best_first(rs: Seq<ShowdownEntry>) -> bool {
    forall|i: int, j: int| 0 <= i < j < rs.len() ==> !rank_less(#[trigger] rs[i].1, #[trigger] rs[j].1)
}

proof fn lemma_insert_position_props(sorted: Seq<ShowdownEntry>, v: (u8, Seq<u8>), k: int)
    requires
        0 <= k <= sorted.len(),
    ensures
        k <= insert_position(sorted, v, k) <= sorted.len(),
        forall|i: int|
            k <= i < insert_position(sorted, v, k) ==> !rank_less(#[trigger] sorted[i].1, v),
        insert_position(sorted, v, k) < sorted.len() ==> rank_less(
            sorted[insert_position(sorted, v, k)].1,
            v,
        ),
    decreases sorted.len() - k,
{
    if k < sorted.len() && !rank_less(sorted[k].1, v) {
        lemma_insert_position_props(sorted, v, k + 1);
    }
}

/// Ranking the showdown entries puts them in order from the best hand
/// down and neither adds nor drops an entry.
pub proof fn lemma_rank_entries_sorted(entries: Seq<ShowdownEntry>)
    ensures
        ranked_best_first(rank_entries(entries)),
        rank_entries(entries).to_multiset() == entries.to_multiset(),
    decreases entries.len(),
{
    broadcast use vstd::seq_lib::group_to_multiset_ensures;

    if entries.len() == 0 {
        assert(rank_entries(entries).to_multiset() =~= entries.to_multiset());
    } else {
        let rest = entries.drop_last();
        let e = entries.last();
        lemma_rank_entries_sorted(rest);
        let sorted = rank_entries(rest);
        lemma_insert_position_props(sorted, e.1, 0);
        let p = insert_position(sorted, e.1, 0);
        let r = sorted.insert(p, e);
        assert(r == rank_entries(entries));
        assert forall|i: int, j: int| 0 <= i < j < r.len() implies !rank_less(
            #[trigger] r[i].1,
            #[trigger] r[j].1,
        ) by {
            if j < p {
                assert(r[i] == sorted[i] && r[j] == sorted[j]);
            } else if j == p {
                assert(r[i] == sorted[i] && r[j] == e);
            } else if i < p {
                assert(r[i] == sorted[i] && r[j] == sorted[j - 1]);
            } else if i == p {
                assert(r[i] == e && r[j] == sorted[j - 1]);
                lemma_rank_order(sorted[p].1, e.1, sorted[j - 1].1);
                lemma_rank_order(sorted[p].1, sorted[p].1, sorted[p].1);
            } else {
                assert(r[i] == sorted[i - 1] && r[j] == sorted[j - 1]);
            }
        }
        assert(entries =~= rest.push(e));
    }
}

/// The first of the ranked entries is the earliest of the best: no entry
/// beats it, and every entry before it is worse.
pub proof fn lemma_rank_entries_first(entries: Seq<ShowdownEntry>)
    requires
        entries.len() > 0,
    ensures
        exists|k: int|
            0 <= k < entries.len() && #[trigger] entries[k] == rank_entries(entries)[0] && (forall|
                i: int,
            |
                0 <= i < entries.len() ==> !rank_less(entries[k].1, #[trigger] entries[i].1)) && (
            forall|i: int| 0 <= i < k ==> rank_less(#[trigger] entries[i].1, entries[k].1)),
    decreases entries.len(),
{
    broadcast use vstd::seq_lib::group_to_multiset_ensures;

    let n = entries.len() as int;
    let rest = entries.drop_last();
    let e = entries.last();
    let sorted = rank_entries(rest);
    lemma_insert_position_props(sorted, e.1, 0);
    let p = insert_position(sorted, e.1, 0);
    let r = rank_entries(entries);
    assert(r == sorted.insert(p, e));
    lemma_rank_entries_sorted(rest);
    crate::game::lemma_rank_entries_len(rest);
    if p == 0 {
        assert(r[0] == e);
        assert(entries[n - 1] == e);
        assert forall|i: int| 0 <= i < n - 1 implies rank_less(#[trigger] entries[i].1, e.1) by {
            assert(entries[i] == rest[i]);
            assert(rest.to_multiset().count(rest[i]) > 0);
            assert(sorted.contains(rest[i]));
            let j = choose|j: int| 0 <= j < sorted.len() && sorted[j] == rest[i];
            lemma_rank_order(sorted[j].1, sorted[0].1, e.1);
            lemma_rank_order(sorted[0].1, sorted[j].1, e.1);
        }
        assert forall|i: int| 0 <= i < n implies !rank_less(e.1, #[trigger] entries[i].1) by {
            if i < n - 1 {
                assert(rank_less(entries[i].1, e.1));
                lemma_rank_order(e.1, entries[i].1, e.1);
            } else {
                lemma_rank_order(e.1, e.1, e.1);
            }
        }
        assert(entries[n - 1] == r[0]);
    } else {
        lemma_rank_entries_first(rest);
        let k = choose|k: int|
            0 <= k < rest.len() && #[trigger] rest[k] == rank_entries(rest)[0] && (forall|i: int|
                0 <= i < rest.len() ==> !rank_less(rest[k].1, #[trigger] rest[i].1)) && (forall|
                i: int,
            |
                0 <= i < k ==> rank_less(#[trigger] rest[i].1, rest[k].1));
        assert(r[0] == sorted[0]);
        assert(entries[k] == rest[k]);
        assert(!rank_less(sorted[0].1, e.1));
        assert forall|i: int| 0 <= i < n implies !rank_less(entries[k].1, #[trigger] entries[i].1) by {
            if i < n - 1 {
                assert(entries[i] == rest[i]);
            }
        }
        assert forall|i: int| 0 <= i < k implies rank_less(#[trigger] entries[i].1, entries[k].1) by {
            assert(entries[i] == rest[i]);
        }
    }
}

/// The player named the winner at the showdown holds a best hand of
/// those still in: no other entry beats it, and it is one of them.
pub proof fn lemma_showdown_winner(g: GameView)
    requires
        showdown_entries(g.players, g.community).len() > 0,
    ensures
        ({
            let entries = showdown_entries(g.players, g.community);
            let winner = rank_entries(entries)[0];
            &&& exists|k: int|
                0 <= k < entries.len() && #[trigger] entries[k] == winner && forall|i: int|
                    0 <= i < k ==> rank_less(#[trigger] entries[i].1, winner.1)
            &&& forall|i: int| 0 <= i < entries.len() ==> !rank_less(winner.1, #[trigger] entries[i].1)
        }),
{
    broadcast use vstd::seq_lib::group_to_multiset_ensures;

    let entries = showdown_entries(g.players, g.community);
    let ranked = rank_entries(entries);
    lemma_rank_entries_sorted(entries);
    lemma_rank_entries_first(entries);
    crate::game::lemma_rank_entries_len(entries);
    assert(ranked.to_multiset().count(ranked[0]) > 0);
    assert forall|i: int| 0 <= i < entries.len() implies !rank_less(
        ranked[0].1,
        #[trigger] entries[i].1,
    ) by {
        assert(entries.to_multiset().count(entries[i]) > 0);
        assert(ranked.contains(entries[i]));
        let j = choose|j: int| 0 <= j < ranked.len() && ranked[j] == entries[i];
        if j > 0 {
            assert(!rank_less(ranked[0].1, ranked[j].1));
        } else {
            lemma_rank_order(ranked[0].1, ranked[0].1, ranked[0].1);
        }
    }
}

// ─── The turn pointer ────────────────────────────────────────────────────

/// While a round runs, the turn points at a seat.
pub open spec fn turn_valid(g: GameView) -> bool {
    g.stage is Some ==> g.current_turn < g.players.len()
}

/// Every operation keeps the turn pointing at a seat while a round runs.
pub proof fn lemma_operations_keep_turn_valid(
    g: GameView,
    nick: Seq<char>,
    action: BetAction,
    deck: Seq<Card>,
)
    requires
        turn_valid(g),
        g.players.len() <= usize::MAX,
    ensures
        turn_valid(join_result(g, nick).0),
        turn_valid(start_result(g, deck).0),
        turn_valid(bet_result(g, nick, action).0),
        advance_allowed(g) ==> turn_valid(advance_result(g).0),
{
    if g.stage is Some {
        let ct = g.current_turn as int;
        let p = g.players[ct];
        let g1 = match action {
            BetAction::Fold => with_current_player(g, PlayerView { folded: true, ..p }),
            BetAction::Bet(amount) => {
                let paid = pay(g, amount as int, amount as int);
                if g.current_bet == 0 {
                    GameView { current_bet: amount, ..paid }
                } else {
                    paid
                }
            },
            BetAction::Call => pay(g, call_amount(g), p.current_bet + call_amount(g)),
            BetAction::Check => g,
        };
        lemma_next_active(g1, 1);
    }
    if advance_allowed(g) {
        match g.stage {
            Some(RoundStage::PreFlop) | Some(RoundStage::Flop) | Some(RoundStage::Turn) => {
                let g0 = clear_bets(g);
                let w = choose|i: int| 0 <= i < g.players.len() && !#[trigger] g.players[i].folded;
                assert(!g0.players[w].folded);
                crate::game::lemma_first_active_found(g0.players, 0, w);
            },
            _ => {},
        }
    }
}

// ─── Combinations ────────────────────────────────────────────────────────

/// The binomial coefficient: the number of ways to choose `k` of `n`.
pub open spec fn binomial(n: int, k: int) -> int
    decreases n,
{
    if k <= 0 {
        1
    } else if n < k {
        0
    } else {
        binomial(n - 1, k - 1) + binomial(n - 1, k)
    }
}

/// There are as many combinations of `k` indices from `start..n` as the
/// binomial coefficient says.
pub proof fn lemma_combination_count(start: int, n: int, k: int)
    requires
        start <= n,
    ensures
        crate::hand::index_combinations(start, n, k).len() == binomial(n - start, k),
    decreases n - start,
{
    if k > 0 && start + k <= n {
        lemma_combination_count(start + 1, n, k - 1);
        lemma_combination_count(start + 1, n, k);
    }
}

// ─── Best hands ──────────────────────────────────────────────────────────

/// Only the pooled cards matter for the best hand: which of them are hole
/// cards and which community cards, and in what order, makes no difference.
pub proof fn lemma_best_hand_pooled(
    hole1: Seq<Card>,
    community1: Seq<Card>,
    hole2: Seq<Card>,
    community2: Seq<Card>,
)
    requires
        (hole1 + community1).to_multiset() == (hole2 + community2).to_multiset(),
        hole1.len() + community1.len() >= 5,
    ensures
        best_hand_value(hole1 + community1) == best_hand_value(hole2 + community2),
{
    lemma_best_hand_order_free(hole1 + community1, hole2 + community2);
}

/// A further community card never lowers a player's best hand.
pub proof fn lemma_best_hand_grows(hole: Seq<Card>, community: Seq<Card>, x: Card)
    requires
        hole.len() + community.len() >= 5,
    ensures
        !rank_less(best_hand_value(hole + community.push(x)), best_hand_value(hole + community)),
{
    assert(hole + community.push(x) =~= (hole + community).push(x));
    lemma_best_hand_monotone(hole + community, x);
}

// ─── A round from start to showdown ──────────────────────────────────────

/// Clearing the bets keeps who has folded.
proof fn lemma_clear_bets_active(g: GameView)
    requires
        any_active(g.players),
    ensures
        any_active(clear_bets(g).players),
{
    let w = choose|i: int| 0 <= i < g.players.len() && !#[trigger] g.players[i].folded;
    assert(!clear_bets(g).players[w].folded);
}

/// One move of the round: from the pre-flop (with no community cards yet)
/// the flop puts three cards on the board, the turn and the river one
/// each, and after the river the showdown returns the table to the lobby
/// with the board as it was. Each move is allowed where a player is still
/// in and the deck holds the cards to deal.
pub proof fn lemma_advance_street(g: GameView)
    requires
        any_active(g.players),
        g.stage == Some(RoundStage::PreFlop) ==> g.community.len() == 0 && g.deck.len() >= 3,
        g.stage == Some(RoundStage::Flop) || g.stage == Some(RoundStage::Turn) ==> g.deck.len() >= 1,
        g.stage == Some(RoundStage::River) ==> g.community.len() >= 5,
    ensures
        g.stage is Some && g.stage != Some(RoundStage::Showdown) ==> advance_allowed(g),
        g.stage == Some(RoundStage::PreFlop) ==> advance_result(g).0.community.len() == 3
            && advance_result(g).0.deck.len() == g.deck.len() - 3,
        g.stage == Some(RoundStage::Flop) || g.stage == Some(RoundStage::Turn) ==> advance_result(
            g,
        ).0.community.len() == g.community.len() + 1 && advance_result(g).0.deck.len()
            == g.deck.len() - 1,
        g.stage == Some(RoundStage::River) ==> advance_result(g).0.community == g.community,
        g.stage != Some(RoundStage::Showdown) ==> advance_result(g).0.stage == next_stage(g.stage),
        any_active(advance_result(g).0.players),
{
    lemma_clear_bets_active(g);
    let g0 = clear_bets(g);
    assert(g0.players.len() == g.players.len());
    if g.stage == Some(RoundStage::River) {
        assert forall|i: int|
            0 <= i < g.players.len() && !(#[trigger] g.players[i]).folded implies g.players[i].hand.len()
            + g.community.len() >= 5 by {}
    }
}

/// A round started from a fresh 52-card deck with 2 to 23 players runs
/// through four moves: the flop, the turn and the river bring the board
/// to 3, 4 and 5 cards, and the fourth move holds the showdown and
/// returns to the lobby, where a fifth move only answers that the round
/// has ended. Each move is allowed when it comes (no bets are placed in
/// between; bets change neither the stage nor the cards, see
/// `lemma_bet_keeps_cards`, and a step taken after them is described by
/// `lemma_advance_street`).
pub proof fn lemma_round_reaches_showdown(g: GameView, deck: Seq<Card>)
    requires
        g.stage is None,
        2 <= g.players.len() <= 23,
        deck.len() == 52,
    ensures
        ({
            let g0 = start_result(g, deck).0;
            let g1 = advance_result(g0).0;
            let g2 = advance_result(g1).0;
            let g3 = advance_result(g2).0;
            let g4 = advance_result(g3).0;
            &&& g0.stage == Some(RoundStage::PreFlop)
            &&& advance_allowed(g0) && advance_allowed(g1) && advance_allowed(g2)
                && advance_allowed(g3)
            &&& g1.stage == Some(RoundStage::Flop) && g1.community.len() == 3
            &&& g2.stage == Some(RoundStage::Turn) && g2.community.len() == 4
            &&& g3.stage == Some(RoundStage::River) && g3.community.len() == 5
            &&& g4.stage is None && g4.community.len() == 5
            &&& advance_result(g4).0.stage is None
            &&& advance_result(g4).1 == "Round already ended."@
        }),
{
    let g0 = start_result(g, deck).0;
    assert(dealt_count(g.players.len() as int, 52) == g.players.len());
    assert(!g0.players[0].folded);
    lemma_advance_street(g0);
    let g1 = advance_result(g0).0;
    lemma_advance_street(g1);
    let g2 = advance_result(g1).0;
    lemma_advance_street(g2);
    let g3 = advance_result(g2).0;
    lemma_advance_street(g3);
}

// ─── What each operation is for ──────────────────────────────────────────

/// Some card has rank `r`.
pub open spec fn has_rank(cards: Seq<Card>, r: int) -> bool {
    exists|i: int| 0 <= i < cards.len() && #[trigger] cards[i].rank == r
}

proof fn lemma_rank_count_has_rank(cards: Seq<Card>, r: int)
    requires
        rank_count(cards, r) > 0,
    ensures
        has_rank(cards, r),
    decreases cards.len(),
{
    if cards.last().rank == r {
        assert(cards[cards.len() - 1].rank == r);
    } else {
        lemma_rank_count_has_rank(cards.drop_last(), r);
        let i = choose|i: int| 0 <= i < cards.drop_last().len() && #[trigger] cards.drop_last()[i].rank == r;
        assert(cards[i].rank == r);
    }
}

/// A hand counts as a straight (or a straight flush) only where its cards
/// hold five consecutive ranks `r..=r+4`, or the ace with 2, 3, 4 and 5;
/// a run that wraps round the ace, such as K-A-2-3-4, is no straight.
pub proof fn lemma_straight_needs_a_run(cards: Seq<Card>)
    requires
        hand_value(cards).0 == 5 || hand_value(cards).0 == 9,
    ensures
        (exists|r: int|
            #![trigger has_rank(cards, r)]
            has_rank(cards, r) && has_rank(cards, r + 1) && has_rank(cards, r + 2) && has_rank(
                cards,
                r + 3,
            ) && has_rank(cards, r + 4)) || (has_rank(cards, 14) && has_rank(cards, 2)
            && has_rank(cards, 3) && has_rank(cards, 4) && has_rank(cards, 5)),
{
    if exists|r: int| 0 <= r <= 251 && #[trigger] crate::hand::has_run(cards, r) {
        let r = choose|r: int| 0 <= r <= 251 && #[trigger] crate::hand::has_run(cards, r);
        lemma_rank_count_has_rank(cards, r);
        lemma_rank_count_has_rank(cards, r + 1);
        lemma_rank_count_has_rank(cards, r + 2);
        lemma_rank_count_has_rank(cards, r + 3);
        lemma_rank_count_has_rank(cards, r + 4);
    } else {
        lemma_rank_count_has_rank(cards, 14);
        lemma_rank_count_has_rank(cards, 2);
        lemma_rank_count_has_rank(cards, 3);
        lemma_rank_count_has_rank(cards, 4);
        lemma_rank_count_has_rank(cards, 5);
    }
}

/// The showdown lists exactly the players who have not folded, in seat
/// order, each with the value of the best hand from their hole cards and
/// the community cards: `seats` gives the seat of each entry.
pub proof fn lemma_showdown_lists_players_still_in(players: Seq<PlayerView>, community: Seq<Card>)
    ensures
        exists|seats: Seq<int>|
            #![trigger increasing_within(seats, 0, players.len() as int)]
            {
                let entries = showdown_entries(players, community);
                &&& seats.len() == entries.len()
                &&& increasing_within(seats, 0, players.len() as int)
                &&& forall|i: int|
                    0 <= i < seats.len() ==> !players[#[trigger] seats[i]].folded && entries[i] == (
                    players[seats[i]].nick,
                    best_hand_value(players[seats[i]].hand + community),
                )
                &&& forall|j: int|
                    0 <= j < players.len() && !(#[trigger] players[j]).folded ==> seats.contains(j)
            },
    decreases players.len(),
{
    let entries = showdown_entries(players, community);
    if players.len() == 0 {
        let seats = Seq::<int>::empty();
        assert(seats.len() == entries.len());
        assert(increasing_within(seats, 0, players.len() as int));
    } else {
        let rest = players.drop_last();
        let n = players.len() as int;
        lemma_showdown_lists_players_still_in(rest, community);
        let seats0 = choose|seats: Seq<int>|
            #![trigger increasing_within(seats, 0, rest.len() as int)]
            {
                let entries = showdown_entries(rest, community);
                &&& seats.len() == entries.len()
                &&& increasing_within(seats, 0, rest.len() as int)
                &&& forall|i: int|
                    0 <= i < seats.len() ==> !rest[#[trigger] seats[i]].folded && entries[i] == (
                    rest[seats[i]].nick,
                    best_hand_value(rest[seats[i]].hand + community),
                )
                &&& forall|j: int|
                    0 <= j < rest.len() && !(#[trigger] rest[j]).folded ==> seats.contains(j)
            };
        let seats = if !players.last().folded {
            seats0.push(n - 1)
        } else {
            seats0
        };
        assert(seats.len() == entries.len());
        assert(increasing_within(seats, 0, n)) by {
            assert forall|i: int| 0 <= i < seats.len() implies 0 <= #[trigger] seats[i] < n by {
                if i < seats0.len() {
                    assert(seats[i] == seats0[i]);
                }
            }
            assert forall|i: int, l: int| 0 <= i < l < seats.len() implies #[trigger] seats[i]
                < #[trigger] seats[l] by {
                assert(seats[i] == seats0[i]);
                if l < seats0.len() {
                    assert(seats[l] == seats0[l]);
                }
            }
        }
        assert forall|i: int| 0 <= i < seats.len() implies !players[#[trigger] seats[i]].folded
            && entries[i] == (
            players[seats[i]].nick,
            best_hand_value(players[seats[i]].hand + community),
        ) by {
            if i < seats0.len() {
                assert(seats[i] == seats0[i]);
                assert(players[seats0[i]] == rest[seats0[i]]);
            }
        }
        assert forall|j: int| 0 <= j < n && !(#[trigger] players[j]).folded implies seats.contains(
            j,
        ) by {
            if j < n - 1 {
                assert(rest[j] == players[j]);
                let k = choose|k: int| 0 <= k < seats0.len() && seats0[k] == j;
                assert(seats[k] == j);
            } else {
                assert(seats[seats.len() - 1] == j);
            }
        }
        assert(increasing_within(seats, 0, players.len() as int));
    }
}

/// The winner named at the showdown is a player who has not folded, and
/// holds a best hand among those still in.
pub proof fn lemma_showdown_winner_still_in(g: GameView)
    requires
        showdown_entries(g.players, g.community).len() > 0,
    ensures
        exists|j: int|
            0 <= j < g.players.len() && !(#[trigger] g.players[j]).folded && rank_entries(
                showdown_entries(g.players, g.community),
            )[0] == (g.players[j].nick, best_hand_value(g.players[j].hand + g.community))
                && forall|l: int|
                0 <= l < g.players.len() && !(#[trigger] g.players[l]).folded ==> !rank_less(
                    best_hand_value(g.players[j].hand + g.community),
                    best_hand_value(g.players[l].hand + g.community),
                ),
{
    let entries = showdown_entries(g.players, g.community);
    lemma_showdown_winner(g);
    lemma_showdown_lists_players_still_in(g.players, g.community);
    let seats = choose|seats: Seq<int>|
        #![trigger increasing_within(seats, 0, g.players.len() as int)]
        {
            &&& seats.len() == entries.len()
            &&& increasing_within(seats, 0, g.players.len() as int)
            &&& forall|i: int|
                0 <= i < seats.len() ==> !g.players[#[trigger] seats[i]].folded && entries[i] == (
                g.players[seats[i]].nick,
                best_hand_value(g.players[seats[i]].hand + g.community),
            )
            &&& forall|j: int|
                0 <= j < g.players.len() && !(#[trigger] g.players[j]).folded ==> seats.contains(j)
        };
    let winner = rank_entries(entries)[0];
    let k = choose|k: int|
        0 <= k < entries.len() && #[trigger] entries[k] == winner && forall|i: int|
            0 <= i < k ==> rank_less(#[trigger] entries[i].1, winner.1);
    let j = seats[k];
    assert(!g.players[j].folded);
    assert forall|l: int| 0 <= l < g.players.len() && !(#[trigger] g.players[l]).folded implies !rank_less(
        best_hand_value(g.players[j].hand + g.community),
        best_hand_value(g.players[l].hand + g.community),
    ) by {
        let m = choose|m: int| 0 <= m < seats.len() && seats[m] == l;
        assert(!rank_less(winner.1, entries[m].1));
    }
}

/// An accepted call brings the caller's bet up to the table's bet: they
/// pay the difference (nothing where their bet already matches), their
/// bet becomes the greater of their bet and the table's, and the pot
/// grows by what they paid.
pub proof fn lemma_call_matches_the_table(g: GameView, nick: Seq<char>)
    requires
        g.stage is Some,
        g.current_turn < g.players.len(),
        g.players[g.current_turn as int].nick == nick,
        !g.players[g.current_turn as int].folded,
        g.current_bet <= g.players[g.current_turn as int].current_bet + g.players[g.current_turn as int].chips,
        bet_allowed(g, nick, BetAction::Call),
    ensures
        ({
            let ct = g.current_turn as int;
            let p = g.players[ct];
            let after = bet_result(g, nick, BetAction::Call).0;
            let owed = if g.current_bet > p.current_bet {
                g.current_bet - p.current_bet
            } else {
                0
            };
            &&& after.players.len() == g.players.len()
            &&& after.players[ct].current_bet == if g.current_bet > p.current_bet {
                g.current_bet
            } else {
                p.current_bet
            }
            &&& after.players[ct].current_bet >= g.current_bet
            &&& after.players[ct].chips == p.chips - owed
            &&& after.pot == g.pot + owed
            &&& after.current_bet == g.current_bet
        }),
{
}

/// All the seats before the first one still in have folded.
proof fn lemma_first_active_before(players: Seq<PlayerView>, k: int)
    requires
        0 <= k,
    ensures
        forall|i: int| k <= i < first_active_from(players, k) && i < players.len() ==> #[trigger] players[i].folded,
    decreases players.len() - k,
{
    if k < players.len() && players[k].folded {
        lemma_first_active_before(players, k + 1);
    }
}

/// When a street opens (flop, turn or river), the turn goes to the first
/// seat whose player has not folded, wherever the last street ended.
pub proof fn lemma_new_street_starts_at_first_seat_in(g: GameView)
    requires
        g.stage == Some(RoundStage::PreFlop) || g.stage == Some(RoundStage::Flop) || g.stage
            == Some(RoundStage::Turn),
        any_active(g.players),
        g.players.len() <= usize::MAX,
    ensures
        ({
            let t = advance_result(g).0.current_turn as int;
            &&& 0 <= t < g.players.len()
            &&& !g.players[t].folded
            &&& forall|i: int| 0 <= i < t ==> #[trigger] g.players[i].folded
        }),
{
    let g0 = clear_bets(g);
    let w = choose|i: int| 0 <= i < g.players.len() && !#[trigger] g.players[i].folded;
    assert(!g0.players[w].folded);
    crate::game::lemma_first_active_found(g0.players, 0, w);
    lemma_first_active_before(g0.players, 0);
    let t = first_active_from(g0.players, 0);
    assert(advance_result(g).0.current_turn == t);
    assert forall|i: int| 0 <= i < t implies #[trigger] g.players[i].folded by {
        assert(g0.players[i].folded == g.players[i].folded);
    }
    assert(g0.players[t].folded == g.players[t].folded);
}

} // verus!
