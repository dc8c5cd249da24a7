//! The mathematical model of a poker hand: rank values, count tables, groups of equal rank,
//! and the hand code of five cards.

use vstd::prelude::*;
use crate::card::Card;
use super::code_of;
use super::sort::{desc_u8, group_leq};

verus! {

/// The rank values (2 for a Two up to 14 for an Ace) of a sequence of cards.
pub open spec fn rank_values(cards: Seq<Card>) -> Seq<u8> {
    cards.map_values(|c: Card| c.rank.value() as u8)
}

/// How many entries of `vals` equal `r`.
pub open spec fn count_of(vals: Seq<u8>, r: int) -> nat
    decreases vals.len(),
{
    if vals.len() == 0 {
        0
    } else {
        count_of(vals.drop_last(), r) + (if vals.last() == r {
            1nat
        } else {
            0nat
        })
    }
}

/// The count table of `vals`: entry `r` (for `r` in 0..15) counts the entries equal to `r`.
pub open spec fn freq_of(vals: Seq<u8>) -> Seq<u8> {
    Seq::new(15, |r: int| count_of(vals, r) as u8)
}

/// Sum of the table entries from `lo` to 14.
pub open spec fn fsum(f: Seq<u8>, lo: int) -> int
    decreases 15 - lo,
{
    if lo >= 15 || lo < 0 {
        0
    } else {
        f[lo] + fsum(f, lo + 1)
    }
}

/// The group of rank `r` in table `f`, as a one-element sequence when the rank is present.
pub open spec fn group_at(f: Seq<u8>, r: int) -> Seq<(u8, u8)> {
    if f[r] > 0 {
        seq![(r as u8, f[r])]
    } else {
        Seq::empty()
    }
}

/// The (rank, count) groups of the ranks from 14 down to `lo`, highest rank first.
pub open spec fn groups_top(f: Seq<u8>, lo: int) -> Seq<(u8, u8)>
    decreases 15 - lo,
{
    if lo > 14 {
        Seq::empty()
    } else {
        groups_top(f, lo + 1) + group_at(f, lo)
    }
}

/// The (rank, count) groups of the ranks from 2 up to `hi`, lowest rank first.
pub open spec fn groups_bot(f: Seq<u8>, hi: int) -> Seq<(u8, u8)>
    decreases hi,
{
    if hi < 2 {
        Seq::empty()
    } else {
        groups_bot(f, hi - 1) + group_at(f, hi)
    }
}

/// The groups of a count table ordered by larger count first, then higher rank.
pub open spec fn ordered_groups(f: Seq<u8>) -> Seq<(u8, u8)> {
    groups_top(f, 2).sort_by(group_leq())
}

/// Entry `i` of a group sequence, or (0, 0) past its end.
pub open spec fn gat(g: Seq<(u8, u8)>, i: int) -> (u8, u8) {
    if 0 <= i < g.len() {
        g[i]
    } else {
        (0u8, 0u8)
    }
}

/// Entry `i` of a byte sequence, or 0 past its end.
pub open spec fn vat(v: Seq<u8>, i: int) -> int {
    if 0 <= i < v.len() {
        v[i] as int
    } else {
        0
    }
}

/// Whether five cards share one suit.
pub open spec fn flush5(c: Seq<Card>) -> bool {
    c[0].suit == c[1].suit && c[1].suit == c[2].suit && c[2].suit == c[3].suit && c[3].suit
        == c[4].suit
}

/// Whether five descending rank values run down by one at each step.
pub open spec fn straight5(v: Seq<u8>) -> bool {
    v[0] == v[1] + 1 && v[1] == v[2] + 1 && v[2] == v[3] + 1 && v[3] == v[4] + 1
}

/// Whether five descending rank values are Ace, Five, Four, Three, Two.
pub open spec fn wheel5(v: Seq<u8>) -> bool {
    v[0] == 14 && v[1] == 5 && v[2] == 4 && v[3] == 3 && v[4] == 2
}

/// The rank values of cards in descending order.
pub open spec fn sorted_values(cards: Seq<Card>) -> Seq<u8> {
    rank_values(cards).sort_by(desc_u8())
}

/// The hand code of five cards: straight flushes (royal when Ace-high), then four of a kind,
/// full house, flush, straight (the wheel counting Five-high), three of a kind, two pair,
/// pair and high card. Tiebreak ranks follow the groups of equal rank, larger group first and
/// higher rank first; flushes and high cards compare all five ranks from the top.
pub open spec fn eval5_spec(cards: Seq<Card>) -> int {
    let v = sorted_values(cards);
    let fl = flush5(cards);
    let st = straight5(v);
    let wh = wheel5(v);
    let g = ordered_groups(freq_of(v));
    let f0 = gat(g, 0).1;
    let f1 = gat(g, 1).1;
    let r0 = gat(g, 0).0 as int;
    let r1 = gat(g, 1).0 as int;
    let r2 = gat(g, 2).0 as int;
    let r3 = gat(g, 3).0 as int;
    if fl && (st || wh) {
        if v[0] == 14 && !wh {
            code_of(9, 0, 0, 0, 0, 0)
        } else {
            code_of(8, if wh { 5 } else { v[0] as int }, 0, 0, 0, 0)
        }
    } else if f0 == 4 {
        code_of(7, r0, r1, 0, 0, 0)
    } else if f0 == 3 && f1 == 2 {
        code_of(6, r0, r1, 0, 0, 0)
    } else if fl {
        code_of(5, v[0] as int, v[1] as int, v[2] as int, v[3] as int, v[4] as int)
    } else if st {
        code_of(4, v[0] as int, 0, 0, 0, 0)
    } else if wh {
        code_of(4, 5, 0, 0, 0, 0)
    } else if f0 == 3 {
        code_of(3, r0, r1, r2, 0, 0)
    } else if f0 == 2 && f1 == 2 {
        code_of(2, r0, r1, r2, 0, 0)
    } else if f0 == 2 {
        code_of(1, r0, r1, r2, r3, 0)
    } else {
        code_of(0, v[0] as int, v[1] as int, v[2] as int, v[3] as int, v[4] as int)
    }
}

/// Indices of a five-card subset of seven cards, in increasing order.
pub open spec fn combo5(j0: int, j1: int, j2: int, j3: int, j4: int) -> bool {
    0 <= j0 < j1 < j2 < j3 < j4 < 7
}

/// The five cards of `s` at the given positions.
pub open spec fn pick5(s: Seq<Card>, j0: int, j1: int, j2: int, j3: int, j4: int) -> Seq<Card> {
    seq![s[j0], s[j1], s[j2], s[j3], s[j4]]
}

/// Lexicographic order on index tuples.
pub open spec fn lex_lt5(
    j0: int,
    j1: int,
    j2: int,
    j3: int,
    j4: int,
    i0: int,
    i1: int,
    i2: int,
    i3: int,
    i4: int,
) -> bool {
    j0 < i0 || (j0 == i0 && (j1 < i1 || (j1 == i1 && (j2 < i2 || (j2 == i2 && (j3 < i3 || (j3
        == i3 && j4 < i4)))))))
}

/// `r` is the largest score that `score` gives to a five-card subset of the seven cards `s`.
pub open spec fn is_best_of_21(s: Seq<Card>, score: spec_fn(Seq<Card>) -> int, r: int) -> bool {
    &&& forall|j0: int, j1: int, j2: int, j3: int, j4: int|
        combo5(j0, j1, j2, j3, j4) ==> score(#[trigger] pick5(s, j0, j1, j2, j3, j4)) <= r
    &&& exists|j0: int, j1: int, j2: int, j3: int, j4: int|
        combo5(j0, j1, j2, j3, j4) && score(#[trigger] pick5(s, j0, j1, j2, j3, j4)) == r
}

/// The five-card hand code as a function value.
pub open spec fn eval5_fn() -> spec_fn(Seq<Card>) -> int {
    |c: Seq<Card>| eval5_spec(c)
}

/// Whether the table holds a five-rank run topped by `h`.
pub open spec fn run_at(f: Seq<u8>, h: int) -> bool {
    f[h] > 0 && f[h - 1] > 0 && f[h - 2] > 0 && f[h - 3] > 0 && f[h - 4] > 0
}

/// The top of the highest five-rank run whose top is at most `h` (and at least 6), or 0.
pub open spec fn straight_top(f: Seq<u8>, h: int) -> int
    decreases h,
{
    if h < 6 {
        0
    } else if run_at(f, h) {
        h
    } else {
        straight_top(f, h - 1)
    }
}

/// Whether the table holds Ace, Five, Four, Three and Two.
pub open spec fn wheel_in(f: Seq<u8>) -> bool {
    f[14] > 0 && f[5] > 0 && f[4] > 0 && f[3] > 0 && f[2] > 0
}

/// The ranks from 14 down to `lo` whose count is exactly `c`, highest first.
pub open spec fn ranks_with(f: Seq<u8>, c: int, lo: int) -> Seq<u8>
    decreases 15 - lo,
{
    if lo > 14 {
        Seq::empty()
    } else if f[lo] == c {
        ranks_with(f, c, lo + 1).push(lo as u8)
    } else {
        ranks_with(f, c, lo + 1)
    }
}

/// The ranks from 14 down to `lo` that occur at all, highest first.
pub open spec fn ranks_present(f: Seq<u8>, lo: int) -> Seq<u8>
    decreases 15 - lo,
{
    if lo > 14 {
        Seq::empty()
    } else if f[lo] > 0 {
        ranks_present(f, lo + 1).push(lo as u8)
    } else {
        ranks_present(f, lo + 1)
    }
}

/// The last entry of a byte sequence, or 0 when it is empty.
pub open spec fn last_or_zero(s: Seq<u8>) -> int {
    if s.len() > 0 {
        s.last() as int
    } else {
        0
    }
}

/// The hand code the bucket-scanning evaluator gives five cards: the straight is read from the
/// count table, and the groups from buckets of quads, trips, pairs and singles filled from Ace
/// down to Two.
pub open spec fn eval5_buckets_spec(cards: Seq<Card>) -> int {
    let f = freq_of(rank_values(cards));
    let fl = flush5(cards);
    let top = straight_top(f, 14);
    let st = top > 0;
    let wh = !st && wheel_in(f);
    let q = last_or_zero(ranks_with(f, 4, 2));
    let t = last_or_zero(ranks_with(f, 3, 2));
    let p = ranks_with(f, 2, 2);
    let sg = ranks_with(f, 1, 2);
    let pr = ranks_present(f, 2);
    if fl && (st || wh) {
        if st && top == 14 {
            code_of(9, 0, 0, 0, 0, 0)
        } else {
            code_of(8, if wh { 5 } else { top }, 0, 0, 0, 0)
        }
    } else if q > 0 {
        code_of(7, q, vat(sg, 0), 0, 0, 0)
    } else if t > 0 && p.len() > 0 {
        code_of(6, t, vat(p, 0), 0, 0, 0)
    } else if fl {
        code_of(5, vat(pr, 0), vat(pr, 1), vat(pr, 2), vat(pr, 3), vat(pr, 4))
    } else if st {
        code_of(4, top, 0, 0, 0, 0)
    } else if wh {
        code_of(4, 5, 0, 0, 0, 0)
    } else if t > 0 {
        code_of(3, t, vat(sg, 0), vat(sg, 1), 0, 0)
    } else if p.len() == 2 {
        code_of(2, vat(p, 0), vat(p, 1), vat(sg, 0), 0, 0)
    } else if p.len() == 1 {
        code_of(1, vat(p, 0), vat(sg, 0), vat(sg, 1), vat(sg, 2), 0)
    } else {
        code_of(0, vat(sg, 0), vat(sg, 1), vat(sg, 2), vat(sg, 3), vat(sg, 4))
    }
}

/// The bucket-scanning hand code as a function value.
pub open spec fn eval5_buckets_fn() -> spec_fn(Seq<Card>) -> int {
    |c: Seq<Card>| eval5_buckets_spec(c)
}

/// How many of the cards have the suit at position `s`.
pub open spec fn suit_count(cards: Seq<Card>, s: int) -> nat
    decreases cards.len(),
{
    if cards.len() == 0 {
        0
    } else {
        suit_count(cards.drop_last(), s) + (if cards.last().suit.index() == s {
            1nat
        } else {
            0nat
        })
    }
}

/// The suit table of the cards: entry `s` counts the cards of the suit at position `s`.
pub open spec fn suit_counts(cards: Seq<Card>) -> Seq<u8> {
    Seq::new(4, |s: int| suit_count(cards, s) as u8)
}

/// The first suit position whose count is at least five, or 4 when there is none.
pub open spec fn flush_suit(sc: Seq<u8>) -> int {
    if sc[0] >= 5 {
        0
    } else if sc[1] >= 5 {
        1
    } else if sc[2] >= 5 {
        2
    } else if sc[3] >= 5 {
        3
    } else {
        4
    }
}

/// The rank values of the cards of suit position `s`, in card order.
pub open spec fn suit_ranks(cards: Seq<Card>, s: int) -> Seq<u8>
    decreases cards.len(),
{
    if cards.len() == 0 {
        Seq::empty()
    } else if cards.last().suit.index() == s {
        suit_ranks(cards.drop_last(), s).push(cards.last().rank.value() as u8)
    } else {
        suit_ranks(cards.drop_last(), s)
    }
}

/// Whether the five entries of `v` from `i` run down by one, starting at 5 or more.
pub open spec fn run_from(v: Seq<u8>, i: int) -> bool {
    v[i] >= 5 && v[i] == v[i + 1] + 1 && v[i + 1] == v[i + 2] + 1 && v[i + 2] == v[i + 3] + 1
        && v[i + 3] == v[i + 4] + 1
}

/// The first entry of descending ranks `v`, from position `i` on, that starts a five-rank run,
/// or 0 when none does.
pub open spec fn first_run(v: Seq<u8>, i: int) -> int
    decreases v.len() - i,
{
    if i < 0 || i + 5 > v.len() {
        0
    } else if run_from(v, i) {
        v[i] as int
    } else {
        first_run(v, i + 1)
    }
}

/// The code of a flush whose ranks, in descending order, are `fv` (five to seven of them):
/// royal flush, straight flush (the wheel counting Five-high) or plain flush.
pub open spec fn flush_code(fv: Seq<u8>) -> int {
    let sf = first_run(fv, 0);
    let wh = sf == 0 && fv.contains(14u8) && fv.contains(5u8) && fv.contains(4u8) && fv.contains(
        3u8,
    ) && fv.contains(2u8);
    if sf == 14 {
        code_of(9, 0, 0, 0, 0, 0)
    } else if sf > 0 {
        code_of(8, sf, 0, 0, 0, 0)
    } else if wh {
        code_of(8, 5, 0, 0, 0, 0)
    } else {
        code_of(5, fv[0] as int, fv[1] as int, fv[2] as int, fv[3] as int, fv[4] as int)
    }
}

/// The highest rank from `h` down to Two that occurs in the table and is neither `a` nor `b`,
/// or 0 when there is none.
pub open spec fn high_except(f: Seq<u8>, a: int, b: int, h: int) -> int
    decreases h,
{
    if h < 2 {
        0
    } else if f[h] > 0 && h != a && h != b {
        h
    } else {
        high_except(f, a, b, h - 1)
    }
}

/// The code of a hand without a flush, read from its count table: four of a kind, full house
/// (two trips count as trips and pair), straight, three of a kind, two pair, pair, high card.
/// Tiebreak ranks follow the ordered groups, except that the kicker beside four of a kind or
/// two pair is the highest rank left, whatever group it stands in.
pub open spec fn non_flush_code(f: Seq<u8>) -> int {
    let g = ordered_groups(f);
    let top = straight_top(f, 14);
    let wh = top == 0 && wheel_in(f);
    let f0 = gat(g, 0).1;
    let f1 = gat(g, 1).1;
    let r0 = gat(g, 0).0 as int;
    let r1 = gat(g, 1).0 as int;
    let r2 = gat(g, 2).0 as int;
    let r3 = gat(g, 3).0 as int;
    let r4 = gat(g, 4).0 as int;
    if f0 == 4 {
        code_of(7, r0, high_except(f, r0, 0, 14), 0, 0, 0)
    } else if f0 == 3 && f1 >= 2 {
        code_of(6, r0, r1, 0, 0, 0)
    } else if top > 0 {
        code_of(4, top, 0, 0, 0, 0)
    } else if wh {
        code_of(4, 5, 0, 0, 0, 0)
    } else if f0 == 3 {
        code_of(3, r0, r1, r2, 0, 0)
    } else if f0 == 2 && f1 == 2 {
        code_of(2, r0, r1, high_except(f, r0, r1, 14), 0, 0)
    } else if f0 == 2 {
        code_of(1, r0, r1, r2, r3, 0)
    } else {
        code_of(0, r0, r1, r2, r3, r4)
    }
}

/// The highest other rank is 0 or a rank at most `h` that occurs and is neither `a` nor `b`,
/// and no higher such rank up to `h` occurs.
pub proof fn lemma_high_except(f: Seq<u8>, a: int, b: int, h: int)
    requires
        h <= 14,
    ensures
        high_except(f, a, b, h) == 0 || (2 <= high_except(f, a, b, h) <= h && f[high_except(f, a, b, h)]
            > 0 && high_except(f, a, b, h) != a && high_except(f, a, b, h) != b),
        forall|r: int|
            2 <= r <= h && #[trigger] f[r] > 0 && r != a && r != b ==> r <= high_except(f, a, b, h),
    decreases h,
{
    if h >= 2 {
        lemma_high_except(f, a, b, h - 1);
    }
}

/// The code the direct seven-card evaluator gives: when some suit holds five or more cards,
/// the flush code of that suit's ranks; otherwise the code read from the count table.
pub open spec fn eval7_spec(seven: Seq<Card>) -> int {
    let fs = flush_suit(suit_counts(seven));
    if fs < 4 {
        flush_code(suit_ranks(seven, fs).sort_by(desc_u8()))
    } else {
        non_flush_code(freq_of(rank_values(seven)))
    }
}

// ── lemmas on count tables ──────────────────────────────────────────────────

/// Counting one more value adds one to its table entry.
pub proof fn lemma_freq_push(vals: Seq<u8>, x: u8)
    requires
        x < 15,
        vals.len() < 255,
    ensures
        freq_of(vals.push(x)) == freq_of(vals).update(x as int, (freq_of(vals)[x as int] + 1) as u8),
{
    assert(vals.push(x).drop_last() == vals);
    lemma_count_le_len(vals, x as int);
    assert(freq_of(vals.push(x)) =~= freq_of(vals).update(
        x as int,
        (freq_of(vals)[x as int] + 1) as u8,
    ));
}

/// Raising entry `x` of a table by one raises every sum that covers `x` by one.
pub proof fn lemma_fsum_update(f: Seq<u8>, x: int, v: u8, lo: int)
    requires
        f.len() == 15,
        0 <= x < 15,
        v == f[x] + 1,
        0 <= lo,
    ensures
        fsum(f.update(x, v), lo) == fsum(f, lo) + (if lo <= x {
            1int
        } else {
            0int
        }),
    decreases 15 - lo,
{
    if lo < 15 {
        lemma_fsum_update(f, x, v, lo + 1);
    }
}

/// Sums over a shorter range are no larger.
pub proof fn lemma_fsum_mono(f: Seq<u8>, lo: int, hi: int)
    requires
        0 <= lo <= hi,
    ensures
        fsum(f, hi) <= fsum(f, lo),
    decreases hi - lo,
{
    if lo < hi {
        lemma_fsum_mono(f, lo + 1, hi);
    }
}

/// The groups of a table have one entry per present rank, each with ranks in 2..=14 and
/// counts equal to the table.
pub proof fn lemma_groups_top_len(f: Seq<u8>, lo: int)
    requires
        f.len() == 15,
        2 <= lo <= 15,
    ensures
        groups_top(f, lo).len() <= fsum(f, lo),
        forall|i: int|
            0 <= i < groups_top(f, lo).len() ==> {
                let e = #[trigger] groups_top(f, lo)[i];
                &&& lo <= e.0 <= 14
                &&& e.1 == f[e.0 as int]
                &&& e.1 > 0
            },
    decreases 15 - lo,
{
    if lo <= 14 {
        lemma_groups_top_len(f, lo + 1);
        let a = groups_top(f, lo + 1);
        let b = group_at(f, lo);
        assert(groups_top(f, lo) == a + b);
        assert forall|i: int| 0 <= i < groups_top(f, lo).len() implies {
            let e = #[trigger] groups_top(f, lo)[i];
            &&& lo <= e.0 <= 14
            &&& e.1 == f[e.0 as int]
            &&& e.1 > 0
        } by {
            if i < a.len() {
                assert(groups_top(f, lo)[i] == a[i]);
            } else {
                assert(groups_top(f, lo)[i] == b[i - a.len()]);
            }
        }
    }
}

/// A count never exceeds the length of the sequence.
pub proof fn lemma_count_le_len(vals: Seq<u8>, r: int)
    ensures
        count_of(vals, r) <= vals.len(),
    decreases vals.len(),
{
    if vals.len() > 0 {
        lemma_count_le_len(vals.drop_last(), r);
    }
}

/// A table of zeros sums to zero.
pub proof fn lemma_fsum_zero(f: Seq<u8>, lo: int)
    requires
        f.len() == 15,
        forall|r: int| 0 <= r < 15 ==> f[r] == 0,
        0 <= lo,
    ensures
        fsum(f, lo) == 0,
    decreases 15 - lo,
{
    if lo < 15 {
        lemma_fsum_zero(f, lo + 1);
    }
}

/// The descending rank values of cards are as many as the cards, each in 2..=14.
pub proof fn lemma_sorted_values(cards: Seq<Card>)
    ensures
        sorted_values(cards).len() == cards.len(),
        forall|i: int|
            0 <= i < cards.len() ==> 2 <= #[trigger] sorted_values(cards)[i] <= 14,
        sorted_values(cards).to_multiset() == rank_values(cards).to_multiset(),
{
    broadcast use vstd::seq_lib::group_to_multiset_ensures;

    let rv = rank_values(cards);
    super::sort::lemma_desc_u8_total();
    rv.lemma_sort_by_ensures(desc_u8());
    let sv = rv.sort_by(desc_u8());
    assert(sv.len() == rv.len()) by {
        assert(sv.to_multiset().len() == rv.to_multiset().len());
    }
    assert forall|i: int| 0 <= i < cards.len() implies 2 <= #[trigger] sv[i] <= 14 by {
        assert(sv.contains(sv[i]));
        assert(rv.contains(sv[i]));
        let j = choose|j: int| 0 <= j < rv.len() && rv[j] == sv[i];
        assert(rv[j] == cards[j].rank.value() as u8);
    }
}

/// The ordered groups of a table are its present ranks, each once, with their counts.
pub proof fn lemma_ordered_groups(f: Seq<u8>)
    requires
        f.len() == 15,
    ensures
        ordered_groups(f).len() == groups_top(f, 2).len(),
        ordered_groups(f).len() <= fsum(f, 2),
        forall|i: int|
            0 <= i < ordered_groups(f).len() ==> {
                let e = #[trigger] ordered_groups(f)[i];
                &&& 2 <= e.0 <= 14
                &&& e.1 == f[e.0 as int]
                &&& e.1 > 0
            },
{
    broadcast use vstd::seq_lib::group_to_multiset_ensures;

    let g = groups_top(f, 2);
    lemma_groups_top_len(f, 2);
    super::sort::lemma_group_leq_total();
    g.lemma_sort_by_ensures(group_leq());
    let o = g.sort_by(group_leq());
    assert(o.len() == g.len()) by {
        assert(o.to_multiset().len() == g.to_multiset().len());
    }
    assert forall|i: int| 0 <= i < o.len() implies {
        let e = #[trigger] o[i];
        &&& 2 <= e.0 <= 14
        &&& e.1 == f[e.0 as int]
        &&& e.1 > 0
    } by {
        assert(o.contains(o[i]));
        assert(g.contains(o[i]));
        let j = choose|j: int| 0 <= j < g.len() && g[j] == o[i];
        assert(g[j] == groups_top(f, 2)[j]);
    }
}

/// A sequence of ranks of one count has at most as many entries as the sum of the table
/// divided by that count; each entry lies in `lo..=14` and has count `c`.
pub proof fn lemma_ranks_with(f: Seq<u8>, c: int, lo: int)
    requires
        f.len() == 15,
        2 <= lo <= 15,
        c >= 1,
    ensures
        c * ranks_with(f, c, lo).len() <= fsum(f, lo),
        forall|i: int|
            0 <= i < ranks_with(f, c, lo).len() ==> lo <= #[trigger] ranks_with(f, c, lo)[i] <= 14
                && f[ranks_with(f, c, lo)[i] as int] == c,
        forall|i: int, j: int|
            0 <= i < j < ranks_with(f, c, lo).len() ==> #[trigger] ranks_with(f, c, lo)[i]
                > #[trigger] ranks_with(f, c, lo)[j],
    decreases 15 - lo,
{
    if lo <= 14 {
        lemma_ranks_with(f, c, lo + 1);
        let n = ranks_with(f, c, lo + 1).len() as int;
        assert(c * (n + 1) == c * n + c) by (nonlinear_arith);
    }
}

/// The straight top is 0 or a rank between 6 and `h`.
pub proof fn lemma_straight_top_bound(f: Seq<u8>, h: int)
    ensures
        straight_top(f, h) == 0 || (6 <= straight_top(f, h) <= h && run_at(f, straight_top(f, h))),
    decreases h,
{
    if h >= 6 && !run_at(f, h) {
        lemma_straight_top_bound(f, h - 1);
    }
}

/// The present ranks are at most as many as the sum of the table, each in `lo..=14`, strictly
/// decreasing.
pub proof fn lemma_ranks_present(f: Seq<u8>, lo: int)
    requires
        f.len() == 15,
        2 <= lo <= 15,
    ensures
        ranks_present(f, lo).len() <= fsum(f, lo),
        forall|i: int|
            0 <= i < ranks_present(f, lo).len() ==> lo <= #[trigger] ranks_present(f, lo)[i]
                <= 14 && f[ranks_present(f, lo)[i] as int] > 0,
        forall|i: int, j: int|
            0 <= i < j < ranks_present(f, lo).len() ==> #[trigger] ranks_present(f, lo)[i]
                > #[trigger] ranks_present(f, lo)[j],
    decreases 15 - lo,
{
    if lo <= 14 {
        lemma_ranks_present(f, lo + 1);
    }
}

/// Groups collected from the bottom and from the top hold the same entries.
pub proof fn lemma_groups_bot_top(f: Seq<u8>, hi: int)
    requires
        f.len() == 15,
        1 <= hi <= 14,
    ensures
        groups_bot(f, hi).to_multiset().add(groups_top(f, hi + 1).to_multiset())
            =~= groups_top(f, 2).to_multiset(),
    decreases hi,
{
    broadcast use vstd::seq_lib::lemma_multiset_commutative;
    broadcast use vstd::multiset::group_multiset_axioms;
    broadcast use vstd::multiset::group_multiset_properties;
    broadcast use vstd::seq_lib::group_to_multiset_ensures;

    if hi == 1 {
        assert(groups_bot(f, 1) =~= Seq::<(u8, u8)>::empty());
        assert(groups_bot(f, 1).to_multiset() =~= vstd::multiset::Multiset::empty());
    } else {
        lemma_groups_bot_top(f, hi - 1);
        assert(groups_bot(f, hi) == groups_bot(f, hi - 1) + group_at(f, hi));
        assert(groups_top(f, hi) == groups_top(f, hi + 1) + group_at(f, hi));
    }
}

/// Sorting the bottom-up groups gives the ordered groups.
pub proof fn lemma_groups_bot_sorted(f: Seq<u8>)
    requires
        f.len() == 15,
    ensures
        groups_bot(f, 14).sort_by(group_leq()) == ordered_groups(f),
{
    broadcast use vstd::multiset::group_multiset_axioms;
    broadcast use vstd::multiset::group_multiset_properties;
    broadcast use vstd::seq_lib::group_to_multiset_ensures;

    lemma_groups_bot_top(f, 14);
    assert(groups_top(f, 15) =~= Seq::<(u8, u8)>::empty());
    assert(groups_top(f, 15).to_multiset() =~= vstd::multiset::Multiset::empty());
    let b = groups_bot(f, 14);
    let t = groups_top(f, 2);
    assert(b.to_multiset() =~= t.to_multiset());
    super::sort::lemma_group_leq_total();
    b.lemma_sort_by_ensures(group_leq());
    t.lemma_sort_by_ensures(group_leq());
    vstd::seq_lib::lemma_sorted_unique(b.sort_by(group_leq()), t.sort_by(group_leq()), group_leq());
}

/// Counting one more card adds one to the count of its suit.
pub proof fn lemma_suit_push(cards: Seq<Card>, c: Card)
    requires
        cards.len() < 255,
    ensures
        suit_counts(cards.push(c)) == suit_counts(cards).update(
            c.suit.index(),
            (suit_counts(cards)[c.suit.index()] + 1) as u8,
        ),
{
    assert(cards.push(c).drop_last() == cards);
    lemma_suit_count_le_len(cards, c.suit.index());
    assert(suit_counts(cards.push(c)) =~= suit_counts(cards).update(
        c.suit.index(),
        (suit_counts(cards)[c.suit.index()] + 1) as u8,
    ));
}

/// A suit count never exceeds the number of cards.
pub proof fn lemma_suit_count_le_len(cards: Seq<Card>, s: int)
    ensures
        suit_count(cards, s) <= cards.len(),
    decreases cards.len(),
{
    if cards.len() > 0 {
        lemma_suit_count_le_len(cards.drop_last(), s);
    }
}

/// The ranks of one suit are as many as the cards of that suit, each in 2..=14.
pub proof fn lemma_suit_ranks(cards: Seq<Card>, s: int)
    ensures
        suit_ranks(cards, s).len() == suit_count(cards, s),
        forall|i: int|
            0 <= i < suit_ranks(cards, s).len() ==> 2 <= #[trigger] suit_ranks(cards, s)[i] <= 14,
    decreases cards.len(),
{
    if cards.len() > 0 {
        lemma_suit_ranks(cards.drop_last(), s);
    }
}

/// Sorting a sequence of ranks in 2..=14 keeps its length and bounds.
pub proof fn lemma_sorted_ranks(v: Seq<u8>)
    requires
        forall|i: int| 0 <= i < v.len() ==> 2 <= #[trigger] v[i] <= 14,
    ensures
        v.sort_by(desc_u8()).len() == v.len(),
        forall|i: int| 0 <= i < v.len() ==> 2 <= #[trigger] v.sort_by(desc_u8())[i] <= 14,
        vstd::relations::sorted_by(v.sort_by(desc_u8()), desc_u8()),
        v.sort_by(desc_u8()).to_multiset() == v.to_multiset(),
{
    broadcast use vstd::seq_lib::group_to_multiset_ensures;

    super::sort::lemma_desc_u8_total();
    v.lemma_sort_by_ensures(desc_u8());
    let sv = v.sort_by(desc_u8());
    assert(sv.len() == v.len()) by {
        assert(sv.to_multiset().len() == v.to_multiset().len());
    }
    assert forall|i: int| 0 <= i < v.len() implies 2 <= #[trigger] sv[i] <= 14 by {
        assert(sv.contains(sv[i]));
        assert(v.contains(sv[i]));
    }
}

} // verus!
