//! Hand evaluation: the rank of five cards and the best five of seven.

use vstd::prelude::*;
use vstd::string::*;
use vstd::multiset::Multiset;
use crate::cards::Card;
use crate::text::{number_list, push_number_list};

verus! {

/// The value of a hand: a category (9 straight flush, 8 four of a kind,
/// 7 full house, 6 flush, 5 straight, 4 three of a kind, 3 two pair,
/// 2 one pair, 1 high card) and tie-breaking ranks. Hands compare by
/// category first and then by the tie-breakers, lexicographically.
#[derive(Debug, PartialEq, Eq, PartialOrd, Ord)]
pub struct HandRank(pub u8, pub Vec<u8>);

impl View for HandRank {
    type V = (u8, Seq<u8>);

    open spec fn view(&self) -> (u8, Seq<u8>) {
        (self.0, self.1@)
    }
}

// ─── Order on hand values ────────────────────────────────────────────────

/// Lexicographic order on sequences of ranks (a proper prefix is smaller).
pub open spec fn seq_less(a: Seq<u8>, b: Seq<u8>) -> bool
    decreases a.len(),
{
    if a.len() == 0 {
        b.len() > 0
    } else if b.len() == 0 {
        false
    } else if a[0] != b[0] {
        a[0] < b[0]
    } else {
        seq_less(a.drop_first(), b.drop_first())
    }
}

/// The order on hand values: by category, then by tie-breakers.
pub open spec fn rank_less(a: (u8, Seq<u8>), b: (u8, Seq<u8>)) -> bool {
    a.0 < b.0 || (a.0 == b.0 && seq_less(a.1, b.1))
}

/// The lexicographic order on rank sequences is transitive.
pub proof fn lemma_seq_less_transitive(a: Seq<u8>, b: Seq<u8>, c: Seq<u8>)
    requires
        seq_less(a, b),
        seq_less(b, c),
    ensures
        seq_less(a, c),
    decreases a.len(),
{
    if a.len() > 0 && b.len() > 0 && c.len() > 0 && a[0] == b[0] && b[0] == c[0] {
        lemma_seq_less_transitive(a.drop_first(), b.drop_first(), c.drop_first());
    }
}

/// The lexicographic order on rank sequences is irreflexive.
pub proof fn lemma_seq_less_irreflexive(a: Seq<u8>)
    ensures
        !seq_less(a, a),
    decreases a.len(),
{
    if a.len() > 0 {
        lemma_seq_less_irreflexive(a.drop_first());
    }
}

/// Any two distinct rank sequences are ordered one way or the other.
pub proof fn lemma_seq_less_total(a: Seq<u8>, b: Seq<u8>)
    ensures
        a == b || seq_less(a, b) || seq_less(b, a),
    decreases a.len(),
{
    if a.len() > 0 && b.len() > 0 && a[0] == b[0] {
        lemma_seq_less_total(a.drop_first(), b.drop_first());
        if a.drop_first() == b.drop_first() {
            assert(a =~= seq![a[0]] + a.drop_first());
            assert(b =~= seq![b[0]] + b.drop_first());
        }
    } else if a.len() == 0 && b.len() == 0 {
        assert(a =~= b);
    }
}

/// The order on hand values is a strict total order.
pub proof fn lemma_rank_order(a: (u8, Seq<u8>), b: (u8, Seq<u8>), c: (u8, Seq<u8>))
    ensures
        !rank_less(a, a),
        rank_less(a, b) && rank_less(b, c) ==> rank_less(a, c),
        a == b || rank_less(a, b) || rank_less(b, a),
{
    lemma_seq_less_irreflexive(a.1);
    if rank_less(a, b) && rank_less(b, c) && a.0 == b.0 && b.0 == c.0 {
        lemma_seq_less_transitive(a.1, b.1, c.1);
    }
    lemma_seq_less_total(a.1, b.1);
}

impl HandRank {
    /// Whether this hand value is strictly below `other`.
    pub fn less_than(&self, other: &HandRank) -> (res: bool)
        ensures
            res == rank_less(self@, other@),
    {
        if self.0 != other.0 {
            return self.0 < other.0;
        }
        let a = &self.1;
        let b = &other.1;
        let mut i: usize = 0;
        assert(a@.skip(0) =~= a@);
        assert(b@.skip(0) =~= b@);
        while i < a.len() && i < b.len()
            invariant
                self.0 == other.0,
                a@ == self.1@,
                b@ == other.1@,
                i <= a@.len(),
                i <= b@.len(),
                seq_less(a@, b@) == seq_less(a@.skip(i as int), b@.skip(i as int)),
            decreases a@.len() - i,
        {
            assert(a@.skip(i as int)[0] == a@[i as int]);
            assert(b@.skip(i as int)[0] == b@[i as int]);
            if a[i] != b[i] {
                return a[i] < b[i];
            }
            assert(a@.skip(i as int).drop_first() =~= a@.skip(i + 1));
            assert(b@.skip(i as int).drop_first() =~= b@.skip(i + 1));
            i = i + 1;
        }
        i == a.len() && i < b.len()
    }
}

// ─── The rank of a set of cards ──────────────────────────────────────────

/// How many of the cards have rank `r`.
pub open spec fn rank_count(cards: Seq<Card>, r: int) -> nat
    decreases cards.len(),
{
    if cards.len() == 0 {
        0
    } else {
        rank_count(cards.drop_last(), r) + if cards.last().rank == r { 1nat } else { 0nat }
    }
}

/// The ranks of the cards that are at least `r`, in descending order,
/// each as often as it occurs.
pub open spec fn ranks_at_least(cards: Seq<Card>, r: int) -> Seq<u8>
    decreases 256 - r,
{
    if r >= 256 {
        Seq::empty()
    } else {
        ranks_at_least(cards, r + 1) + Seq::new(rank_count(cards, r), |_i: int| r as u8)
    }
}

/// The ranks of all the cards in descending order.
pub open spec fn ranks_desc(cards: Seq<Card>) -> Seq<u8> {
    ranks_at_least(cards, 0)
}

/// Among the ranks in `r..=255` other than `excluded` that occur in the
/// cards, the one that occurs most often, the higher rank on a tie;
/// -1 where there is none.
pub open spec fn top_group_from(cards: Seq<Card>, r: int, excluded: int) -> int
    decreases 256 - r,
{
    if r >= 256 {
        -1
    } else {
        let b = top_group_from(cards, r + 1, excluded);
        if r != excluded && rank_count(cards, r) > 0 && (b < 0 || rank_count(cards, r) > rank_count(
            cards,
            b,
        )) {
            r
        } else {
            b
        }
    }
}

/// The rank that occurs most often (the higher one on a tie).
pub open spec fn primary_group(cards: Seq<Card>) -> int {
    top_group_from(cards, 0, -1)
}

/// The rank that occurs most often after the primary one (the higher one
/// on a tie); -1 where all the cards share one rank.
pub open spec fn secondary_group(cards: Seq<Card>) -> int {
    top_group_from(cards, 0, primary_group(cards))
}

/// All the cards have the suit of the first.
pub open spec fn is_flush(cards: Seq<Card>) -> bool {
    forall|i: int| 0 <= i < cards.len() ==> #[trigger] cards[i].suit == cards[0].suit
}

/// The five ranks `r..=r+4` all occur.
pub open spec fn has_run(cards: Seq<Card>, r: int) -> bool {
    &&& rank_count(cards, r) > 0
    &&& rank_count(cards, r + 1) > 0
    &&& rank_count(cards, r + 2) > 0
    &&& rank_count(cards, r + 3) > 0
    &&& rank_count(cards, r + 4) > 0
}

/// Five consecutive ranks occur, or the ace and the ranks 2 to 5.
pub open spec fn is_straight(cards: Seq<Card>) -> bool {
    ||| exists|r: int| 0 <= r <= 251 && #[trigger] has_run(cards, r)
    ||| (rank_count(cards, 14) > 0 && rank_count(cards, 2) > 0
        && rank_count(cards, 3) > 0 && rank_count(cards, 4) > 0 && rank_count(cards, 5) > 0)
}

/// The sequence without the elements equal to `x`, in the same order.
pub open spec fn without(s: Seq<u8>, x: int) -> Seq<u8>
    decreases s.len(),
{
    if s.len() == 0 {
        s
    } else if s.last() == x {
        without(s.drop_last(), x)
    } else {
        without(s.drop_last(), x).push(s.last())
    }
}

/// The first `n` elements, or all of them where there are fewer.
pub open spec fn take_up_to(s: Seq<u8>, n: int) -> Seq<u8> {
    if s.len() <= n {
        s
    } else {
        s.take(n)
    }
}

/// The first element of `s` other than `x` and `y`, or 0 where there is none.
pub open spec fn first_other(s: Seq<u8>, x: int, y: int) -> u8 {
    let rest = without(without(s, x), y);
    if rest.len() > 0 {
        rest[0]
    } else {
        0
    }
}

/// The value of a hand of cards (meant for five).
pub open spec fn hand_value(cards: Seq<Card>) -> (u8, Seq<u8>) {
    let desc = ranks_desc(cards);
    let flush = is_flush(cards);
    let straight = is_straight(cards);
    let p = primary_group(cards);
    let q = secondary_group(cards);
    let pc = rank_count(cards, p);
    let qc = rank_count(cards, q);
    if flush && straight {
        (9, seq![desc[0]])
    } else if pc == 4 {
        (8, seq![p as u8, first_other(desc, p, p)])
    } else if pc == 3 && q >= 0 && qc >= 2 {
        (7, seq![p as u8, q as u8])
    } else if flush {
        (6, desc)
    } else if straight {
        (5, seq![desc[0]])
    } else if pc == 3 {
        (4, seq![p as u8] + take_up_to(without(desc, p), 2))
    } else if pc == 2 && q >= 0 && qc == 2 {
        let hi = if p > q { p } else { q };
        let lo = if p > q { q } else { p };
        (3, seq![hi as u8, lo as u8, first_other(desc, p, q)])
    } else if pc == 2 {
        (2, seq![p as u8] + take_up_to(without(desc, p), 3))
    } else {
        (1, desc)
    }
}

/// The ranks of the cards, in the order of the cards.
pub open spec fn card_ranks(cards: Seq<Card>) -> Seq<u8> {
    cards.map_values(|c: Card| c.rank)
}

proof fn lemma_repeat_count(n: nat, r: u8, v: u8)
    ensures
        Seq::new(n, |_i: int| r).to_multiset().count(v) == if v == r {
            n
        } else {
            0
        },
    decreases n,
{
    broadcast use vstd::seq_lib::group_to_multiset_ensures;

    if n == 0 {
        assert(Seq::new(n, |_i: int| r).to_multiset() =~= Multiset::empty());
    } else {
        let m = (n - 1) as nat;
        lemma_repeat_count(m, r, v);
        assert(Seq::new(n, |_i: int| r) =~= Seq::new(m, |_i: int| r).push(r));
    }
}

proof fn lemma_ranks_at_least_count(cards: Seq<Card>, r: int, v: u8)
    requires
        0 <= r <= 256,
    ensures
        ranks_at_least(cards, r).to_multiset().count(v) == if r <= v {
            rank_count(cards, v as int)
        } else {
            0
        },
    decreases 256 - r,
{
    broadcast use vstd::seq_lib::lemma_multiset_commutative;
    broadcast use vstd::seq_lib::group_to_multiset_ensures;

    if r < 256 {
        lemma_ranks_at_least_count(cards, r + 1, v);
        lemma_repeat_count(rank_count(cards, r), r as u8, v);
        assert(ranks_at_least(cards, r) == ranks_at_least(cards, r + 1) + Seq::new(
            rank_count(cards, r),
            |_i: int| r as u8,
        ));
    } else {
        assert(ranks_at_least(cards, r) =~= Seq::<u8>::empty());
        assert(ranks_at_least(cards, r).to_multiset() =~= Multiset::empty());
    }
}

proof fn lemma_card_ranks_count(cards: Seq<Card>, v: u8)
    ensures
        card_ranks(cards).to_multiset().count(v) == rank_count(cards, v as int),
    decreases cards.len(),
{
    broadcast use vstd::seq_lib::group_to_multiset_ensures;

    if cards.len() == 0 {
        assert(card_ranks(cards).to_multiset() =~= Multiset::empty());
    } else {
        lemma_card_ranks_count(cards.drop_last(), v);
        assert(card_ranks(cards) =~= card_ranks(cards.drop_last()).push(cards.last().rank));
    }
}

proof fn lemma_ranks_at_least_sorted(cards: Seq<Card>, r: int)
    requires
        0 <= r <= 256,
    ensures
        forall|i: int| 0 <= i < ranks_at_least(cards, r).len() ==> #[trigger] ranks_at_least(cards, r)[i] >= r,
        forall|i: int, j: int|
            0 <= i < j < ranks_at_least(cards, r).len() ==> #[trigger] ranks_at_least(cards, r)[i]
                >= #[trigger] ranks_at_least(cards, r)[j],
    decreases 256 - r,
{
    if r < 256 {
        lemma_ranks_at_least_sorted(cards, r + 1);
        let a = ranks_at_least(cards, r + 1);
        let s = ranks_at_least(cards, r);
        assert forall|i: int| 0 <= i < s.len() implies #[trigger] s[i] >= r by {
            if i < a.len() {
                assert(s[i] == a[i]);
            }
        }
        assert forall|i: int, j: int| 0 <= i < j < s.len() implies #[trigger] s[i] >= #[trigger] s[j] by {
            if j < a.len() {
                assert(s[i] == a[i] && s[j] == a[j]);
            } else if i < a.len() {
                assert(s[i] == a[i]);
            }
        }
    }
}

/// `ranks_desc` is what its name says: the ranks of the cards, each as
/// often as it occurs, in descending order.
pub proof fn lemma_ranks_desc_sorted(cards: Seq<Card>)
    ensures
        forall|i: int, j: int|
            0 <= i < j < ranks_desc(cards).len() ==> #[trigger] ranks_desc(cards)[i]
                >= #[trigger] ranks_desc(cards)[j],
        ranks_desc(cards).to_multiset() == card_ranks(cards).to_multiset(),
{
    lemma_ranks_at_least_sorted(cards, 0);
    assert forall|v: u8| #[trigger] ranks_desc(cards).to_multiset().count(v) == card_ranks(
        cards,
    ).to_multiset().count(v) by {
        lemma_ranks_at_least_count(cards, 0, v);
        lemma_card_ranks_count(cards, v);
    }
    assert(ranks_desc(cards).to_multiset() =~= card_ranks(cards).to_multiset());
}

/// A rank count never exceeds the number of cards.
proof fn lemma_rank_count_bound(cards: Seq<Card>, r: int)
    ensures
        rank_count(cards, r) <= cards.len(),
    decreases cards.len(),
{
    if cards.len() > 0 {
        lemma_rank_count_bound(cards.drop_last(), r);
    }
}

/// For each rank 0 to 255, how many of the cards have it.
fn count_ranks(cards: &[Card]) -> (counts: Vec<u8>)
    requires
        cards@.len() <= 255,
    ensures
        counts@.len() == 256,
        forall|r: int| 0 <= r < 256 ==> #[trigger] counts@[r] == rank_count(cards@, r),
{
    let mut counts: Vec<u8> = Vec::new();
    let mut r: usize = 0;
    while r < 256
        invariant
            r <= 256,
            counts@.len() == r,
            forall|j: int| 0 <= j < r ==> #[trigger] counts@[j] == 0,
        decreases 256 - r,
    {
        counts.push(0);
        r = r + 1;
    }
    let mut i: usize = 0;
    while i < cards.len()
        invariant
            i <= cards@.len() <= 255,
            counts@.len() == 256,
            forall|r: int|
                0 <= r < 256 ==> #[trigger] counts@[r] == rank_count(
                    cards@.subrange(0, i as int),
                    r,
                ),
        decreases cards@.len() - i,
    {
        let rank = cards[i].rank as usize;
        proof {
            lemma_rank_count_bound(cards@.subrange(0, i as int), rank as int);
            assert(cards@.subrange(0, i + 1).drop_last() =~= cards@.subrange(0, i as int));
        }
        let c = counts[rank];
        counts.set(rank, c + 1);
        i = i + 1;
    }
    assert(cards@.subrange(0, cards@.len() as int) =~= cards@);
    counts
}

/// The ranks of the cards in descending order, from their counts.
fn descending_ranks(Ghost(cards): Ghost<Seq<Card>>, counts: &Vec<u8>) -> (res: Vec<u8>)
    requires
        counts@.len() == 256,
        forall|r: int| 0 <= r < 256 ==> #[trigger] counts@[r] == rank_count(cards, r),
        cards.len() <= 255,
    ensures
        res@ == ranks_desc(cards),
{
    let mut out: Vec<u8> = Vec::new();
    let mut r: usize = 256;
    while r > 0
        invariant
            r <= 256,
            counts@.len() == 256,
            forall|k: int| 0 <= k < 256 ==> #[trigger] counts@[k] == rank_count(cards, k),
            cards.len() <= 255,
            out@ == ranks_at_least(cards, r as int),
        decreases r,
    {
        let rr = r - 1;
        let n = counts[rr];
        let ghost before = out@;
        let mut j: u8 = 0;
        while j < n
            invariant
                j <= n,
                n == rank_count(cards, rr as int),
                out@ == before + Seq::new(j as nat, |_i: int| rr as u8),
                rr < 256,
            decreases n - j,
        {
            out.push(rr as u8);
            assert(out@ =~= before + Seq::new((j + 1) as nat, |_i: int| rr as u8));
            j = j + 1;
        }
        proof {
            assert(out@ =~= ranks_at_least(cards, rr as int));
        }
        r = rr;
    }
    out
}

/// The rank that occurs most often among those other than `excluded`
/// (the higher one on a tie), or -1.
fn top_group(Ghost(cards): Ghost<Seq<Card>>, counts: &Vec<u8>, excluded: i32) -> (res: i32)
    requires
        counts@.len() == 256,
        forall|r: int| 0 <= r < 256 ==> #[trigger] counts@[r] == rank_count(cards, r),
    ensures
        res == top_group_from(cards, 0, excluded as int),
        -1 <= res < 256,
{
    let mut best: i32 = -1;
    let mut r: usize = 256;
    while r > 0
        invariant
            r <= 256,
            counts@.len() == 256,
            forall|k: int| 0 <= k < 256 ==> #[trigger] counts@[k] == rank_count(cards, k),
            best == top_group_from(cards, r as int, excluded as int),
            -1 <= best < 256,
        decreases r,
    {
        let rr = r - 1;
        let c = counts[rr];
        if rr as i32 != excluded && c > 0 && (best < 0 || c > counts[best as usize]) {
            best = rr as i32;
        }
        r = rr;
    }
    best
}

/// Whether all the cards share the suit of the first.
fn all_same_suit(cards: &[Card]) -> (res: bool)
    requires
        cards@.len() > 0,
    ensures
        res == is_flush(cards@),
{
    let suit = cards[0].suit;
    let mut i: usize = 0;
    while i < cards.len()
        invariant
            i <= cards@.len(),
            suit == cards@[0].suit,
            forall|j: int| 0 <= j < i ==> #[trigger] cards@[j].suit == suit,
        decreases cards@.len() - i,
    {
        if cards[i].suit != suit {
            return false;
        }
        i = i + 1;
    }
    true
}

/// Whether the counted ranks hold a straight.
fn holds_straight(Ghost(cards): Ghost<Seq<Card>>, counts: &Vec<u8>) -> (res: bool)
    requires
        counts@.len() == 256,
        forall|r: int| 0 <= r < 256 ==> #[trigger] counts@[r] == rank_count(cards, r),
    ensures
        res == is_straight(cards),
{
    let mut r: usize = 0;
    while r <= 251
        invariant
            r <= 252,
            counts@.len() == 256,
            forall|k: int| 0 <= k < 256 ==> #[trigger] counts@[k] == rank_count(cards, k),
            forall|k: int| 0 <= k < r ==> !#[trigger] has_run(cards, k),
        decreases 252 - r,
    {
        if counts[r] > 0 && counts[r + 1] > 0 && counts[r + 2] > 0 && counts[r + 3] > 0 && counts[r
            + 4] > 0 {
            assert(has_run(cards, r as int));
            return true;
        }
        r = r + 1;
    }
    counts[14] > 0 && counts[2] > 0 && counts[3] > 0 && counts[4] > 0 && counts[5] > 0
}

/// The elements of `s` other than `x`, in order.
fn without_rank(s: &Vec<u8>, x: u8) -> (res: Vec<u8>)
    ensures
        res@ == without(s@, x as int),
{
    let mut out: Vec<u8> = Vec::new();
    let mut i: usize = 0;
    while i < s.len()
        invariant
            i <= s@.len(),
            out@ == without(s@.subrange(0, i as int), x as int),
        decreases s@.len() - i,
    {
        assert(s@.subrange(0, i + 1).drop_last() =~= s@.subrange(0, i as int));
        if s[i] != x {
            out.push(s[i]);
        }
        i = i + 1;
    }
    assert(s@.subrange(0, s@.len() as int) =~= s@);
    out
}

/// At most the first `n` elements of `s`.
fn first_n(s: &Vec<u8>, n: usize) -> (res: Vec<u8>)
    ensures
        res@ == take_up_to(s@, n as int),
{
    let mut out: Vec<u8> = Vec::new();
    let mut i: usize = 0;
    while i < s.len() && i < n
        invariant
            i <= s@.len(),
            i <= n,
            out@ == s@.take(i as int),
        decreases s@.len() - i,
    {
        out.push(s[i]);
        assert(out@ =~= s@.take(i + 1));
        i = i + 1;
    }
    assert(s@.len() <= n ==> s@.take(s@.len() as int) =~= s@);
    out
}

/// The first rank of `s` other than `x` and `y`, or 0.
fn first_other_rank(s: &Vec<u8>, x: u8, y: u8) -> (res: u8)
    ensures
        res == first_other(s@, x as int, y as int),
{
    let rest = without_rank(&without_rank(s, x), y);
    if rest.len() > 0 {
        rest[0]
    } else {
        0
    }
}

/// The number of cards with rank in `r..=255`, counted rank by rank.
spec fn count_at_least(cards: Seq<Card>, r: int) -> nat
    decreases 256 - r,
{
    if r >= 256 {
        0
    } else {
        count_at_least(cards, r + 1) + rank_count(cards, r)
    }
}

proof fn lemma_ranks_at_least_len(cards: Seq<Card>, r: int)
    ensures
        ranks_at_least(cards, r).len() == count_at_least(cards, r),
    decreases 256 - r,
{
    if r < 256 {
        lemma_ranks_at_least_len(cards, r + 1);
    }
}

proof fn lemma_count_at_least_empty(cards: Seq<Card>, r: int)
    requires
        cards.len() == 0,
    ensures
        count_at_least(cards, r) == 0,
    decreases 256 - r,
{
    if r < 256 {
        lemma_count_at_least_empty(cards, r + 1);
    }
}

proof fn lemma_count_at_least_split(cards: Seq<Card>, r: int)
    requires
        0 <= r,
        cards.len() > 0,
    ensures
        count_at_least(cards, r) == count_at_least(cards.drop_last(), r) + if r
            <= cards.last().rank {
            1nat
        } else {
            0nat
        },
    decreases 256 - r,
{
    if r < 256 {
        lemma_count_at_least_split(cards, r + 1);
    }
}

proof fn lemma_count_at_least_all(cards: Seq<Card>)
    ensures
        count_at_least(cards, 0) == cards.len(),
    decreases cards.len(),
{
    if cards.len() == 0 {
        lemma_count_at_least_empty(cards, 0);
    } else {
        lemma_count_at_least_split(cards, 0);
        lemma_count_at_least_all(cards.drop_last());
    }
}

/// The descending ranks hold one entry per card.
pub proof fn lemma_ranks_desc_len(cards: Seq<Card>)
    ensures
        ranks_desc(cards).len() == cards.len(),
{
    lemma_ranks_at_least_len(cards, 0);
    lemma_count_at_least_all(cards);
}

/// No card has a rank outside 0..=255.
proof fn lemma_rank_count_out_of_range(cards: Seq<Card>, r: int)
    requires
        r < 0 || r >= 256,
    ensures
        rank_count(cards, r) == 0,
    decreases cards.len(),
{
    if cards.len() > 0 {
        lemma_rank_count_out_of_range(cards.drop_last(), r);
    }
}

/// The rank of each card is counted.
proof fn lemma_rank_count_member(cards: Seq<Card>, i: int)
    requires
        0 <= i < cards.len(),
    ensures
        rank_count(cards, cards[i].rank as int) > 0,
    decreases cards.len(),
{
    if i < cards.len() - 1 {
        lemma_rank_count_member(cards.drop_last(), i);
    }
}

/// A rank that occurs (and is not excluded) makes the search for the top
/// group succeed.
proof fn lemma_top_group_found(cards: Seq<Card>, r: int, excluded: int, w: int)
    requires
        0 <= r <= w < 256,
        w != excluded,
        rank_count(cards, w) > 0,
    ensures
        0 <= top_group_from(cards, r, excluded) < 256,
    decreases w - r,
{
    lemma_top_group_range(cards, r + 1, excluded);
    if r < w {
        lemma_top_group_found(cards, r + 1, excluded, w);
    }
}

proof fn lemma_top_group_range(cards: Seq<Card>, r: int, excluded: int)
    requires
        0 <= r,
    ensures
        -1 <= top_group_from(cards, r, excluded) < 256,
        top_group_from(cards, r, excluded) >= 0 ==> top_group_from(cards, r, excluded) >= r,
    decreases 256 - r,
{
    if r < 256 {
        lemma_top_group_range(cards, r + 1, excluded);
    }
}

/// The value of a hand, by the categories of `HandRank`.
fn evaluate_five_card_hand(cards: &[Card]) -> (res: HandRank)
    requires
        1 <= cards@.len() <= 255,
    ensures
        res@ == hand_value(cards@),
{
    let ghost cs = cards@;
    let counts = count_ranks(cards);
    let ranks = descending_ranks(Ghost(cs), &counts);
    proof {
        lemma_ranks_desc_len(cs);
        lemma_rank_count_member(cs, 0);
        lemma_top_group_found(cs, 0, -1, cs[0].rank as int);
        lemma_rank_count_out_of_range(cs, -1);
    }
    let is_flush = all_same_suit(cards);
    let is_straight = holds_straight(Ghost(cs), &counts);
    let p = top_group(Ghost(cs), &counts, -1);
    let q = top_group(Ghost(cs), &counts, p);
    let pc = counts[p as usize];
    let qc: u8 = if q >= 0 {
        counts[q as usize]
    } else {
        0
    };
    assert(qc == rank_count(cs, q as int));
    if is_flush && is_straight {
        return HandRank(9, vec![ranks[0]]);
    }
    if pc == 4 {
        let kicker = first_other_rank(&ranks, p as u8, p as u8);
        return HandRank(8, vec![p as u8, kicker]);
    }
    if pc == 3 && q >= 0 && qc >= 2 {
        return HandRank(7, vec![p as u8, q as u8]);
    }
    if is_flush {
        return HandRank(6, ranks);
    }
    if is_straight {
        return HandRank(5, vec![ranks[0]]);
    }
    if pc == 3 {
        let mut kickers = first_n(&without_rank(&ranks, p as u8), 2);
        let mut tiebreakers = vec![p as u8];
        tiebreakers.append(&mut kickers);
        return HandRank(4, tiebreakers);
    }
    if pc == 2 && q >= 0 && qc == 2 {
        let (hi, lo) = if p > q {
            (p as u8, q as u8)
        } else {
            (q as u8, p as u8)
        };
        let kicker = first_other_rank(&ranks, p as u8, q as u8);
        return HandRank(3, vec![hi, lo, kicker]);
    }
    if pc == 2 {
        let mut kickers = first_n(&without_rank(&ranks, p as u8), 3);
        let mut tiebreakers = vec![p as u8];
        tiebreakers.append(&mut kickers);
        return HandRank(2, tiebreakers);
    }
    HandRank(1, ranks)
}

// ─── Combinations ────────────────────────────────────────────────────────

/// All the increasing sequences of `k` indices drawn from `start..n`, in
/// lexicographic order.
pub open spec fn index_combinations(start: int, n: int, k: int) -> Seq<Seq<int>>
    decreases n - start,
{
    if k <= 0 {
        seq![Seq::empty()]
    } else if start + k > n {
        Seq::empty()
    } else {
        index_combinations(start + 1, n, k - 1).map_values(|c: Seq<int>| seq![start] + c)
            + index_combinations(start + 1, n, k)
    }
}

/// The cards at the given indices.
pub open spec fn pick(cards: Seq<Card>, idx: Seq<int>) -> Seq<Card> {
    idx.map_values(|i: int| cards[i])
}

/// All the `k`-card selections from `cards`, each in the order of the
/// cards, listed in lexicographic order of their positions.
pub open spec fn card_combinations(cards: Seq<Card>, k: int) -> Seq<Seq<Card>> {
    index_combinations(0, cards.len() as int, k).map_values(|c: Seq<int>| pick(cards, c))
}

/// The contents of a list of card vectors.
pub open spec fn card_lists(v: Seq<Vec<Card>>) -> Seq<Seq<Card>> {
    v.map_values(|c: Vec<Card>| c@)
}

/// Every combination holds `k` strictly increasing indices from `start..n`.
pub proof fn lemma_index_combinations_shape(start: int, n: int, k: int)
    requires
        0 <= start,
        0 <= k,
    ensures
        forall|i: int|
            0 <= i < index_combinations(start, n, k).len() ==> {
                let c = #[trigger] index_combinations(start, n, k)[i];
                &&& c.len() == k
                &&& forall|j: int| 0 <= j < k ==> start <= #[trigger] c[j] < n
                &&& forall|j: int, l: int| 0 <= j < l < k ==> c[j] < c[l]
            },
    decreases n - start,
{
    if k > 0 && start + k <= n {
        lemma_index_combinations_shape(start + 1, n, k - 1);
        lemma_index_combinations_shape(start + 1, n, k);
        let a = index_combinations(start + 1, n, k - 1);
        let with_start = a.map_values(|c: Seq<int>| seq![start] + c);
        let b = index_combinations(start + 1, n, k);
        assert forall|i: int| 0 <= i < index_combinations(start, n, k).len() implies {
            let c = #[trigger] index_combinations(start, n, k)[i];
            &&& c.len() == k
            &&& forall|j: int| 0 <= j < k ==> start <= #[trigger] c[j] < n
            &&& forall|j: int, l: int| 0 <= j < l < k ==> c[j] < c[l]
        } by {
            let c = index_combinations(start, n, k)[i];
            if i < with_start.len() {
                let t = a[i];
                assert(c == seq![start] + t);
                assert forall|j: int| 0 <= j < k implies start <= #[trigger] c[j] < n by {
                    if j > 0 {
                        assert(c[j] == t[j - 1]);
                    }
                }
                assert forall|j: int, l: int| 0 <= j < l < k implies c[j] < c[l] by {
                    assert(c[l] == t[l - 1]);
                    if j > 0 {
                        assert(c[j] == t[j - 1]);
                    }
                }
            } else {
                assert(c == b[i - with_start.len()]);
            }
        }
    }
}

/// A copy of a list of cards.
fn copy_cards(v: &Vec<Card>) -> (res: Vec<Card>)
    ensures
        res@ == v@,
{
    let mut out: Vec<Card> = Vec::new();
    let mut i: usize = 0;
    while i < v.len()
        invariant
            i <= v@.len(),
            out@ == v@.take(i as int),
        decreases v@.len() - i,
    {
        out.push(v[i]);
        assert(out@ =~= v@.take(i + 1));
        i = i + 1;
    }
    assert(out@ =~= v@);
    out
}

/// Appends to `out`, for each `k`-combination of the indices `start..`,
/// the cards of `prefix` followed by the chosen cards.
fn collect_combinations(
    cards: &[Card],
    start: usize,
    k: usize,
    prefix: &mut Vec<Card>,
    out: &mut Vec<Vec<Card>>,
)
    requires
        start <= cards@.len(),
    ensures
        final(prefix)@ == old(prefix)@,
        card_lists(final(out)@) == card_lists(old(out)@) + index_combinations(
            start as int,
            cards@.len() as int,
            k as int,
        ).map_values(|c: Seq<int>| old(prefix)@ + pick(cards@, c)),
    decreases cards@.len() - start,
{
    let ghost n = cards@.len() as int;
    let ghost p0 = prefix@;
    let ghost o0 = out@;
    if k == 0 {
        let copy = copy_cards(prefix);
        out.push(copy);
        assert(card_lists(out@) =~= card_lists(o0) + index_combinations(
            start as int,
            n,
            k as int,
        ).map_values(|c: Seq<int>| p0 + pick(cards@, c)));
        return;
    }
    if k > cards.len() - start {
        assert(card_lists(out@) =~= card_lists(o0) + index_combinations(
            start as int,
            n,
            k as int,
        ).map_values(|c: Seq<int>| p0 + pick(cards@, c)));
        return;
    }
    prefix.push(cards[start]);
    let ghost p1 = prefix@;
    collect_combinations(cards, start + 1, k - 1, prefix, out);
    let ghost o1 = out@;
    prefix.pop();
    assert(prefix@ =~= p0);
    collect_combinations(cards, start + 1, k, prefix, out);
    proof {
        let a = index_combinations(start + 1, n, k - 1);
        let b = index_combinations(start + 1, n, k as int);
        let f = |c: Seq<int>| p0 + pick(cards@, c);
        let g = |c: Seq<int>| seq![start as int] + c;
        assert forall|i: int| 0 <= i < a.len() implies #[trigger] f(g(a[i])) == p1 + pick(
            cards@,
            a[i],
        ) by {
            assert(f(g(a[i])) =~= p1 + pick(cards@, a[i]));
        }
        assert(a.map_values(g).map_values(f) =~= a.map_values(|c: Seq<int>| p1 + pick(cards@, c)));
        assert(index_combinations(start as int, n, k as int) == a.map_values(g) + b);
        assert((a.map_values(g) + b).map_values(f) =~= a.map_values(g).map_values(f)
            + b.map_values(f));
        assert(card_lists(out@) =~= card_lists(o0) + index_combinations(
            start as int,
            n,
            k as int,
        ).map_values(f));
    }
}

/// All the `k`-card combinations of `cards`, in lexicographic order of
/// positions.
fn get_combinations(cards: &[Card], k: usize) -> (res: Vec<Vec<Card>>)
    requires
        1 <= k <= cards@.len(),
    ensures
        card_lists(res@) == card_combinations(cards@, k as int),
{
    let mut result: Vec<Vec<Card>> = Vec::new();
    let mut prefix: Vec<Card> = Vec::new();
    collect_combinations(cards, 0, k, &mut prefix, &mut result);
    proof {
        let combos = index_combinations(0, cards@.len() as int, k as int);
        assert(card_lists(Seq::<Vec<Card>>::empty()) =~= Seq::<Seq<Card>>::empty());
        assert(combos.map_values(|c: Seq<int>| Seq::<Card>::empty() + pick(cards@, c))
            =~= card_combinations(cards@, k as int)) by {
            assert forall|i: int| 0 <= i < combos.len() implies Seq::<Card>::empty() + pick(
                cards@,
                #[trigger] combos[i],
            ) == pick(cards@, combos[i]) by {
                assert(Seq::<Card>::empty() + pick(cards@, combos[i]) =~= pick(cards@, combos[i]));
            }
        }
        assert(card_lists(result@) =~= card_combinations(cards@, k as int));
    }
    result
}

// ─── Best hand ───────────────────────────────────────────────────────────

/// The greatest of the values, starting from `(0, [])` and keeping the
/// earlier one on a tie.
pub open spec fn max_value(vals: Seq<(u8, Seq<u8>)>) -> (u8, Seq<u8>)
    decreases vals.len(),
{
    if vals.len() == 0 {
        (0, Seq::empty())
    } else {
        let m = max_value(vals.drop_last());
        if rank_less(m, vals.last()) {
            vals.last()
        } else {
            m
        }
    }
}

/// The value of the best five-card hand that can be made from `cards`.
pub open spec fn best_hand_value(cards: Seq<Card>) -> (u8, Seq<u8>) {
    max_value(card_combinations(cards, 5).map_values(|c: Seq<Card>| hand_value(c)))
}

/// Every hand value has a category of at least 1.
pub proof fn lemma_hand_value_category(cards: Seq<Card>)
    ensures
        1 <= hand_value(cards).0 <= 9,
{
}

/// The running maximum is one of the values and none of them exceeds it,
/// provided all of them have a category.
pub proof fn lemma_max_value(vals: Seq<(u8, Seq<u8>)>)
    requires
        vals.len() > 0,
        forall|i: int| 0 <= i < vals.len() ==> #[trigger] vals[i].0 >= 1,
    ensures
        exists|i: int| 0 <= i < vals.len() && vals[i] == max_value(vals),
        forall|i: int| 0 <= i < vals.len() ==> !rank_less(max_value(vals), #[trigger] vals[i]),
    decreases vals.len(),
{
    let m = max_value(vals);
    let last = vals.last();
    let k = vals.len() - 1;
    assert(vals[k] == last);
    if vals.len() == 1 {
        assert(rank_less(max_value(vals.drop_last()), last));
        lemma_rank_order(last, last, last);
    } else {
        let rest = vals.drop_last();
        assert forall|i: int| 0 <= i < rest.len() implies #[trigger] rest[i].0 >= 1 by {
            assert(rest[i] == vals[i]);
        }
        lemma_max_value(rest);
        let mr = max_value(rest);
        let w = choose|i: int| 0 <= i < rest.len() && rest[i] == mr;
        assert(vals[w] == rest[w]);
        assert forall|i: int| 0 <= i < vals.len() implies !rank_less(m, #[trigger] vals[i]) by {
            lemma_rank_order(m, m, m);
            if i < k {
                assert(vals[i] == rest[i]);
                assert(!rank_less(mr, rest[i]));
                if rank_less(mr, last) {
                    lemma_rank_order(mr, last, vals[i]);
                    lemma_rank_order(last, vals[i], mr);
                    lemma_rank_order(mr, vals[i], last);
                }
            } else {
                if !rank_less(mr, last) {
                    assert(m == mr);
                }
            }
        }
    }
}

/// The best five-card hand is the greatest of the hands of five cards
/// that can be made from the given cards, and is one of them.
pub proof fn lemma_best_hand_is_greatest(cards: Seq<Card>)
    requires
        cards.len() >= 5,
    ensures
        exists|i: int|
            0 <= i < card_combinations(cards, 5).len() && hand_value(
                #[trigger] card_combinations(cards, 5)[i],
            ) == best_hand_value(cards),
        forall|i: int|
            0 <= i < card_combinations(cards, 5).len() ==> !rank_less(
                best_hand_value(cards),
                hand_value(#[trigger] card_combinations(cards, 5)[i]),
            ),
{
    let combos = card_combinations(cards, 5);
    let vals = combos.map_values(|c: Seq<Card>| hand_value(c));
    lemma_combinations_nonempty(0, cards.len() as int, 5);
    assert forall|i: int| 0 <= i < vals.len() implies #[trigger] vals[i].0 >= 1 by {
        lemma_hand_value_category(combos[i]);
    }
    lemma_max_value(vals);
    let w = choose|i: int| 0 <= i < vals.len() && vals[i] == max_value(vals);
    assert(hand_value(combos[w]) == best_hand_value(cards));
    assert forall|i: int| 0 <= i < combos.len() implies !rank_less(
        best_hand_value(cards),
        hand_value(#[trigger] combos[i]),
    ) by {
        assert(vals[i] == hand_value(combos[i]));
    }
}

/// Where there are at least `k` indices to choose from, there is a choice.
pub proof fn lemma_combinations_nonempty(start: int, n: int, k: int)
    requires
        0 <= k,
        start + k <= n,
    ensures
        index_combinations(start, n, k).len() > 0,
    decreases n - start,
{
    if k > 0 {
        lemma_combinations_nonempty(start + 1, n, k - 1);
    }
}

/// The value of the best five-card hand made from the hole cards and the
/// community cards together.
#[verifier::rlimit(30)]
pub fn evaluate_best_hand(hole_cards: &[Card], community_cards: &[Card]) -> (res: HandRank)
    requires
        hole_cards@.len() + community_cards@.len() >= 5,
    ensures
        res@ == best_hand_value(hole_cards@ + community_cards@),
{
    let mut all_cards: Vec<Card> = Vec::new();
    let mut i: usize = 0;
    while i < hole_cards.len()
        invariant
            i <= hole_cards@.len(),
            all_cards@ == hole_cards@.take(i as int),
        decreases hole_cards@.len() - i,
    {
        all_cards.push(hole_cards[i]);
        assert(all_cards@ =~= hole_cards@.take(i + 1));
        i = i + 1;
    }
    let mut j: usize = 0;
    while j < community_cards.len()
        invariant
            j <= community_cards@.len(),
            all_cards@ == hole_cards@ + community_cards@.take(j as int),
        decreases community_cards@.len() - j,
    {
        all_cards.push(community_cards[j]);
        assert(all_cards@ =~= hole_cards@ + community_cards@.take(j + 1));
        j = j + 1;
    }
    assert(all_cards@ =~= hole_cards@ + community_cards@);
    let ghost cards = all_cards@;
    let combinations = get_combinations(all_cards.as_slice(), 5);
    let ghost combos = card_combinations(cards, 5);
    let ghost vals = combos.map_values(|c: Seq<Card>| hand_value(c));
    proof {
        lemma_index_combinations_shape(0, cards.len() as int, 5);
    }
    let mut best = HandRank(0, Vec::new());
    let mut c: usize = 0;
    while c < combinations.len()
        invariant
            c <= combinations@.len(),
            card_lists(combinations@) == combos,
            combos == card_combinations(cards, 5),
            vals == combos.map_values(|c: Seq<Card>| hand_value(c)),
            forall|i: int|
                0 <= i < index_combinations(0, cards.len() as int, 5).len() ==> (
                #[trigger] index_combinations(0, cards.len() as int, 5)[i]).len() == 5,
            best@ == max_value(vals.take(c as int)),
        decreases combinations@.len() - c,
    {
        assert(combinations@[c as int]@ == combos[c as int]);
        assert(combos[c as int].len() == 5);
        let rank = evaluate_five_card_hand(combinations[c].as_slice());
        assert(vals.take(c + 1).drop_last() =~= vals.take(c as int));
        if best.less_than(&rank) {
            best = rank;
        }
        c = c + 1;
    }
    assert(vals.take(combinations@.len() as int) =~= vals);
    best
}

// ─── Order of the cards ──────────────────────────────────────────────────

/// Taking one card out lowers the count of its rank by one.
proof fn lemma_rank_count_remove(c: Seq<Card>, j: int, r: int)
    requires
        0 <= j < c.len(),
    ensures
        rank_count(c, r) == rank_count(c.remove(j), r) + if c[j].rank == r {
            1nat
        } else {
            0nat
        },
    decreases c.len(),
{
    if j == c.len() - 1 {
        assert(c.remove(j) =~= c.drop_last());
    } else {
        lemma_rank_count_remove(c.drop_last(), j, r);
        assert(c.remove(j).drop_last() =~= c.drop_last().remove(j));
        assert(c.remove(j).last() == c.last());
    }
}

/// Cards that are the same as a multiset have the same rank counts.
proof fn lemma_rank_count_perm(c1: Seq<Card>, c2: Seq<Card>, r: int)
    requires
        c1.to_multiset() == c2.to_multiset(),
    ensures
        rank_count(c1, r) == rank_count(c2, r),
    decreases c1.len(),
{
    broadcast use vstd::seq_lib::group_to_multiset_ensures;

    if c1.len() == 0 {
        assert(c1.to_multiset().len() == c1.len());
        assert(c2.to_multiset().len() == c2.len());
        assert(c2.len() == 0);
    } else {
        let x = c1.last();
        assert(c1 =~= c1.drop_last().push(x));
        assert(c2.to_multiset().count(x) > 0);
        assert(c2.contains(x));
        let j = choose|j: int| 0 <= j < c2.len() && c2[j] == x;
        let c2r = c2.remove(j);
        assert(c2r.to_multiset() =~= c1.drop_last().to_multiset());
        lemma_rank_count_perm(c1.drop_last(), c2r, r);
        lemma_rank_count_remove(c2, j, r);
    }
}

/// Cards that are the same as a multiset are all of one suit or not alike.
proof fn lemma_flush_perm(c1: Seq<Card>, c2: Seq<Card>)
    requires
        c1.to_multiset() == c2.to_multiset(),
    ensures
        is_flush(c1) == is_flush(c2),
{
    broadcast use vstd::seq_lib::group_to_multiset_ensures;

    assert forall|a: Seq<Card>, b: Seq<Card>|
        a.to_multiset() == b.to_multiset() && #[trigger] is_flush(a) implies #[trigger] is_flush(
        b,
    ) by {
        if b.len() > 0 {
            assert forall|i: int| 0 <= i < b.len() implies #[trigger] b[i].suit == b[0].suit by {
                assert(b.to_multiset().count(b[i]) > 0);
                assert(a.contains(b[i]));
                assert(b.to_multiset().count(b[0]) > 0);
                assert(a.contains(b[0]));
                let k = choose|k: int| 0 <= k < a.len() && a[k] == b[i];
                let m = choose|m: int| 0 <= m < a.len() && a[m] == b[0];
                assert(a[k].suit == a[0].suit && a[m].suit == a[0].suit);
            }
        }
    }
    if is_flush(c1) {
        assert(is_flush(c2));
    }
    if is_flush(c2) {
        assert(is_flush(c1));
    }
}

/// Everything that is built from rank counts agrees for cards with the
/// same counts.
proof fn lemma_same_counts(c1: Seq<Card>, c2: Seq<Card>, r: int, excluded: int)
    requires
        forall|k: int| #[trigger] rank_count(c1, k) == rank_count(c2, k),
    ensures
        ranks_at_least(c1, r) == ranks_at_least(c2, r),
        top_group_from(c1, r, excluded) == top_group_from(c2, r, excluded),
    decreases 256 - r,
{
    if r < 256 {
        lemma_same_counts(c1, c2, r + 1, excluded);
        assert(rank_count(c1, r) == rank_count(c2, r));
        let b = top_group_from(c1, r + 1, excluded);
        assert(rank_count(c1, b) == rank_count(c2, b));
    }
}

/// The value of a hand does not depend on the order of its cards.
pub proof fn lemma_hand_value_order_free(c1: Seq<Card>, c2: Seq<Card>)
    requires
        c1.to_multiset() == c2.to_multiset(),
    ensures
        hand_value(c1) == hand_value(c2),
{
    assert forall|k: int| #[trigger] rank_count(c1, k) == rank_count(c2, k) by {
        lemma_rank_count_perm(c1, c2, k);
    }
    lemma_flush_perm(c1, c2);
    lemma_same_counts(c1, c2, 0, -1);
    let p = primary_group(c1);
    lemma_same_counts(c1, c2, 0, p);
    assert(forall|r: int| has_run(c1, r) == #[trigger] has_run(c2, r));
    assert(rank_count(c1, 14) == rank_count(c2, 14) && rank_count(c1, 2) == rank_count(c2, 2)
        && rank_count(c1, 3) == rank_count(c2, 3) && rank_count(c1, 4) == rank_count(c2, 4)
        && rank_count(c1, 5) == rank_count(c2, 5));
    if exists|r: int| 0 <= r <= 251 && #[trigger] has_run(c1, r) {
        let r = choose|r: int| 0 <= r <= 251 && #[trigger] has_run(c1, r);
        assert(has_run(c2, r));
    }
    if exists|r: int| 0 <= r <= 251 && #[trigger] has_run(c2, r) {
        let r = choose|r: int| 0 <= r <= 251 && #[trigger] has_run(c2, r);
        assert(has_run(c1, r));
    }
    assert(is_straight(c1) == is_straight(c2));
}

// ─── Choosing five ───────────────────────────────────────────────────────

/// The indices increase strictly and lie in `start..n`.
pub open spec fn increasing_within(idx: Seq<int>, start: int, n: int) -> bool {
    &&& forall|j: int| 0 <= j < idx.len() ==> start <= #[trigger] idx[j] < n
    &&& forall|j: int, l: int| 0 <= j < l < idx.len() ==> #[trigger] idx[j] < #[trigger] idx[l]
}

/// Every strictly increasing choice of `k` indices from `start..n` is
/// one of the listed combinations.
pub proof fn lemma_index_combinations_complete(idx: Seq<int>, start: int, n: int)
    requires
        increasing_within(idx, start, n),
    ensures
        index_combinations(start, n, idx.len() as int).contains(idx),
    decreases n - start,
{
    let k = idx.len() as int;
    if k == 0 {
        assert(idx =~= Seq::<int>::empty());
        assert(index_combinations(start, n, k)[0] == idx);
    } else {
        let a = index_combinations(start + 1, n, k - 1);
        let b = index_combinations(start + 1, n, k);
        if idx[0] == start {
            let tail = idx.drop_first();
            assert(increasing_within(tail, start + 1, n)) by {
                assert forall|j: int| 0 <= j < tail.len() implies start + 1 <= #[trigger] tail[j]
                    < n by {
                    assert(tail[j] == idx[j + 1]);
                    assert(idx[0] < idx[j + 1]);
                }
                assert forall|j: int, l: int| 0 <= j < l < tail.len() implies #[trigger] tail[j]
                    < #[trigger] tail[l] by {
                    assert(tail[j] == idx[j + 1] && tail[l] == idx[l + 1]);
                }
            }
            lemma_index_combinations_complete(tail, start + 1, n);
            let p = choose|p: int| 0 <= p < a.len() && a[p] == tail;
            if k > 1 {
                assert(start + k <= n);
            } else {
                assert(start < n);
            }
            let with_start = a.map_values(|c: Seq<int>| seq![start] + c);
            assert(with_start[p] =~= idx);
            assert(index_combinations(start, n, k)[p] == with_start[p]);
        } else {
            assert(increasing_within(idx, start + 1, n)) by {
                assert forall|j: int| 0 <= j < idx.len() implies start + 1 <= #[trigger] idx[j]
                    < n by {
                    if j > 0 {
                        assert(idx[0] < idx[j]);
                    }
                }
            }
            lemma_index_combinations_complete(idx, start + 1, n);
            let p = choose|p: int| 0 <= p < b.len() && b[p] == idx;
            assert(start + 1 + k <= n);
            let with_start = a.map_values(|c: Seq<int>| seq![start] + c);
            assert(index_combinations(start, n, k)[with_start.len() + p] == idx);
        }
    }
}

/// Adding a card never lowers the best hand: every hand that could be
/// made before can still be made.
pub proof fn lemma_best_hand_monotone(cards: Seq<Card>, x: Card)
    requires
        cards.len() >= 5,
    ensures
        !rank_less(best_hand_value(cards.push(x)), best_hand_value(cards)),
{
    let n = cards.len() as int;
    let more = cards.push(x);
    lemma_best_hand_is_greatest(cards);
    lemma_best_hand_is_greatest(more);
    let combos = card_combinations(cards, 5);
    let i = choose|i: int|
        0 <= i < combos.len() && hand_value(#[trigger] combos[i]) == best_hand_value(cards);
    lemma_index_combinations_shape(0, n, 5);
    let idx = index_combinations(0, n, 5)[i];
    assert(increasing_within(idx, 0, n + 1));
    lemma_index_combinations_complete(idx, 0, n + 1);
    let all = index_combinations(0, n + 1, 5);
    let p = choose|p: int| 0 <= p < all.len() && all[p] == idx;
    assert(pick(more, idx) =~= pick(cards, idx));
    assert(card_combinations(more, 5)[p] == pick(more, idx));
    assert(!rank_less(best_hand_value(more), hand_value(card_combinations(more, 5)[p])));
}

/// The cards at strictly increasing positions below `m` are among the
/// first `m` cards.
proof fn lemma_pick_subset(s: Seq<Card>, idx: Seq<int>, m: int)
    requires
        increasing_within(idx, 0, m),
        m <= s.len(),
    ensures
        pick(s, idx).to_multiset().subset_of(s.take(m).to_multiset()),
    decreases idx.len(),
{
    broadcast use vstd::seq_lib::group_to_multiset_ensures;
    broadcast use vstd::seq_lib::lemma_multiset_commutative;
    broadcast use vstd::multiset::group_multiset_axioms;

    if idx.len() == 0 {
        assert(pick(s, idx).to_multiset() =~= Multiset::empty());
    } else {
        let l = idx.last();
        let rest = idx.drop_last();
        assert(increasing_within(rest, 0, l)) by {
            assert forall|j: int| 0 <= j < rest.len() implies 0 <= #[trigger] rest[j] < l by {
                assert(rest[j] == idx[j] && idx[j] < idx[idx.len() - 1]);
            }
            assert forall|j: int, k: int| 0 <= j < k < rest.len() implies #[trigger] rest[j]
                < #[trigger] rest[k] by {
                assert(rest[j] == idx[j] && rest[k] == idx[k]);
            }
        }
        lemma_pick_subset(s, rest, l);
        assert(pick(s, idx) =~= pick(s, rest).push(s[l]));
        assert(s.take(l + 1) =~= s.take(l).push(s[l]));
        assert(s.take(m) =~= s.take(l + 1) + s.subrange(l + 1, m));
        assert forall|v: Card| #[trigger] pick(s, idx).to_multiset().count(v) <= s.take(
            m,
        ).to_multiset().count(v) by {
            assert(s.take(m).to_multiset().count(v) == s.take(l + 1).to_multiset().count(v)
                + s.subrange(l + 1, m).to_multiset().count(v));
        }
    }
}

/// Any five cards among the cards from `start` on can be chosen by one of
/// the listed combinations.
proof fn lemma_combination_for_multiset(s: Seq<Card>, start: int, m: Multiset<Card>)
    requires
        0 <= start <= s.len(),
        m.subset_of(s.skip(start).to_multiset()),
    ensures
        exists|idx: Seq<int>|
            #![trigger pick(s, idx)]
            index_combinations(start, s.len() as int, m.len() as int).contains(idx)
                && pick(s, idx).to_multiset() == m,
    decreases s.len() - start,
{
    broadcast use vstd::seq_lib::group_to_multiset_ensures;
    broadcast use vstd::seq_lib::lemma_multiset_commutative;
    broadcast use vstd::multiset::group_multiset_axioms;
    broadcast use vstd::multiset::lemma_multiset_empty_len;

    let n = s.len() as int;
    let k = m.len() as int;
    if k == 0 {
        let idx = Seq::<int>::empty();
        assert(m =~= Multiset::empty());
        assert(pick(s, idx).to_multiset() =~= m);
        assert(index_combinations(start, n, 0)[0] == idx);
    } else {
        if start == n {
            assert(s.skip(start) =~= Seq::<Card>::empty());
            let v = choose|v: Card| 0 < m.count(v);
            assert(false);
        }
        let x = s[start];
        assert(s.skip(start) =~= seq![x] + s.skip(start + 1));
        let rest = s.skip(start + 1).to_multiset();
        assert(s.skip(start).to_multiset() =~= seq![x].to_multiset().add(rest));
        let a = index_combinations(start + 1, n, k - 1);
        let with_start = a.map_values(|c: Seq<int>| seq![start] + c);
        if m.count(x) > 0 {
            let m2 = m.remove(x);
            assert(m2.subset_of(rest)) by {
                assert forall|v: Card| m2.count(v) <= rest.count(v) by {
                    assert(s.skip(start).to_multiset().count(v) == seq![x].to_multiset().count(v)
                        + rest.count(v));
                }
            }
            assert(m2.len() == k - 1);
            lemma_combination_for_multiset(s, start + 1, m2);
            let idx2 = choose|idx2: Seq<int>|
                #![trigger pick(s, idx2)]
                a.contains(idx2) && pick(s, idx2).to_multiset() == m2;
            let p = choose|p: int| 0 <= p < a.len() && a[p] == idx2;
            if k > 1 {
                assert(start + k <= n);
            }
            let idx = seq![start] + idx2;
            assert(with_start[p] == idx);
            assert(index_combinations(start, n, k)[p] == idx);
            assert(pick(s, idx) =~= seq![x] + pick(s, idx2));
            assert(pick(s, idx).to_multiset() =~= m);
        } else {
            assert(m.subset_of(rest)) by {
                assert forall|v: Card| m.count(v) <= rest.count(v) by {
                    assert(s.skip(start).to_multiset().count(v) == seq![x].to_multiset().count(v)
                        + rest.count(v));
                }
            }
            lemma_combination_for_multiset(s, start + 1, m);
            let b = index_combinations(start + 1, n, k);
            let idx = choose|idx: Seq<int>|
                #![trigger pick(s, idx)]
                b.contains(idx) && pick(s, idx).to_multiset() == m;
            let p = choose|p: int| 0 <= p < b.len() && b[p] == idx;
            assert(start + 1 + k <= n);
            assert(index_combinations(start, n, k)[with_start.len() + p] == idx);
        }
    }
}

/// What the best hand of `s1` is worth can be made from `s2` too, where
/// both hold the same cards.
proof fn lemma_best_hand_reached(s1: Seq<Card>, s2: Seq<Card>)
    requires
        s1.to_multiset() == s2.to_multiset(),
        s1.len() >= 5,
    ensures
        s2.len() == s1.len(),
        !rank_less(best_hand_value(s2), best_hand_value(s1)),
{
    broadcast use vstd::seq_lib::group_to_multiset_ensures;

    let n = s1.len() as int;
    assert(s1.to_multiset().len() == s1.len() && s2.to_multiset().len() == s2.len());
    lemma_best_hand_is_greatest(s1);
    lemma_best_hand_is_greatest(s2);
    let combos = card_combinations(s1, 5);
    let i = choose|i: int|
        0 <= i < combos.len() && hand_value(#[trigger] combos[i]) == best_hand_value(s1);
    lemma_index_combinations_shape(0, n, 5);
    let idx = index_combinations(0, n, 5)[i];
    lemma_pick_subset(s1, idx, n);
    assert(s1.take(n) =~= s1);
    assert(s2.skip(0) =~= s2);
    let m = pick(s1, idx).to_multiset();
    assert(m.len() == 5);
    lemma_combination_for_multiset(s2, 0, m);
    let idx2 = choose|idx2: Seq<int>|
        #![trigger pick(s2, idx2)]
        index_combinations(0, n, 5).contains(idx2) && pick(s2, idx2).to_multiset() == m;
    let p = choose|p: int|
        0 <= p < index_combinations(0, n, 5).len() && index_combinations(0, n, 5)[p] == idx2;
    lemma_hand_value_order_free(pick(s1, idx), pick(s2, idx2));
    assert(combos[i] == pick(s1, idx));
    assert(card_combinations(s2, 5)[p] == pick(s2, idx2));
}

/// The best hand depends only on which cards there are, not on their
/// order: hole and community cards can be pooled in any arrangement.
pub proof fn lemma_best_hand_order_free(s1: Seq<Card>, s2: Seq<Card>)
    requires
        s1.to_multiset() == s2.to_multiset(),
        s1.len() >= 5,
    ensures
        best_hand_value(s1) == best_hand_value(s2),
{
    lemma_best_hand_reached(s1, s2);
    lemma_best_hand_reached(s2, s1);
    lemma_rank_order(best_hand_value(s1), best_hand_value(s2), best_hand_value(s1));
}

// ─── Text ────────────────────────────────────────────────────────────────

/// The name of a hand category.
pub open spec fn category_name(c: u8) -> Seq<char> {
    if c == 9 {
        "Straight Flush"@
    } else if c == 8 {
        "Four of a Kind"@
    } else if c == 7 {
        "Full House"@
    } else if c == 6 {
        "Flush"@
    } else if c == 5 {
        "Straight"@
    } else if c == 4 {
        "Three of a Kind"@
    } else if c == 3 {
        "Two Pair"@
    } else if c == 2 {
        "One Pair"@
    } else if c == 1 {
        "High Card"@
    } else {
        "Unknown"@
    }
}

/// How a hand value is written: its category, then its tie-breakers as a
/// list in brackets, for example `One Pair ([10, 14, 9, 5])`.
pub open spec fn hand_text(v: (u8, Seq<u8>)) -> Seq<char> {
    category_name(v.0) + " ("@ + number_list(v.1) + ")"@
}

/// Appends the text of a hand value to `out`.
pub fn push_hand_rank(out: &mut String, rank: &HandRank)
    ensures
        final(out)@ == old(out)@ + hand_text(rank@),
{
    let c = rank.0;
    let name = if c == 9 {
        "Straight Flush"
    } else if c == 8 {
        "Four of a Kind"
    } else if c == 7 {
        "Full House"
    } else if c == 6 {
        "Flush"
    } else if c == 5 {
        "Straight"
    } else if c == 4 {
        "Three of a Kind"
    } else if c == 3 {
        "Two Pair"
    } else if c == 2 {
        "One Pair"
    } else if c == 1 {
        "High Card"
    } else {
        "Unknown"
    };
    out.append(name);
    out.append(" (");
    push_number_list(out, &rank.1);
    out.append(")");
    assert(final(out)@ =~= old(out)@ + hand_text(rank@));
}

impl HandRank {
    /// The hand value as text.
    pub fn to_string(&self) -> (res: String)
        ensures
            res@ == hand_text(self@),
    {
        let mut out = String::new();
        push_hand_rank(&mut out, self);
        assert(out@ =~= hand_text(self@));
        out
    }
}

} // verus!
