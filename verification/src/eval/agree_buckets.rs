//! The bucket-scanning evaluator agrees with the sorting evaluator on five distinct cards: the
//! ordered groups of a count table are its rank buckets, quads first and singles last.

use vstd::prelude::*;
use crate::card::Card;
use super::agree::{lemma_best21_exists, lemma_distinct_multiset, lemma_same_scores_same_counts};
use super::deal::{distinct_given, lemma_seven_distinct, none_count, residual_deck, seven_of};
use super::model::{combo5, eval5_buckets_fn, eval5_fn, pick5};
use super::score::{best21, lemma_best21_unique, Scorer};
use super::sim::{category_count, lemma_state_fresh, players_of, round_scores, state_after, win_count, Shuffle};
use super::model::{
    count_of, freq_of, fsum, group_at, groups_top, lemma_groups_top_len, lemma_ordered_groups,
    lemma_ranks_with, lemma_sorted_values, ordered_groups, rank_values, ranks_present, ranks_with,
    run_at, sorted_values, straight_top, eval5_spec, eval5_buckets_spec, flush5, straight5, wheel5,
    wheel_in, gat, vat, last_or_zero,
};
use super::sort::{desc_u8, lemma_desc_u8_total};
use super::sort::{group_leq, lemma_group_leq_total};

verus! {

/// The (rank, count) groups of a list of ranks that all have count `c`.
pub open spec fn with_count(rs: Seq<u8>, c: u8) -> Seq<(u8, u8)> {
    rs.map_values(|r: u8| (r, c))
}

/// The groups of a table bucket by bucket: fours, threes, pairs, singles, each from the
/// highest rank down.
pub open spec fn buckets(f: Seq<u8>) -> Seq<(u8, u8)> {
    with_count(ranks_with(f, 4, 2), 4u8) + with_count(ranks_with(f, 3, 2), 3u8) + with_count(
        ranks_with(f, 2, 2),
        2u8,
    ) + with_count(ranks_with(f, 1, 2), 1u8)
}

/// A rank list of one count holds exactly the ranks of that count.
pub proof fn lemma_ranks_with_contains(f: Seq<u8>, c: int, lo: int, x: u8)
    requires
        f.len() == 15,
        2 <= lo <= 15,
    ensures
        ranks_with(f, c, lo).contains(x) <==> (lo <= x <= 14 && f[x as int] == c),
    decreases 15 - lo,
{
    if lo <= 14 {
        lemma_ranks_with_contains(f, c, lo + 1, x);
        let r = ranks_with(f, c, lo + 1);
        if f[lo] == c {
            let p = r.push(lo as u8);
            if p.contains(x) {
                let i = choose|i: int| 0 <= i < p.len() && #[trigger] p[i] == x;
                if i < r.len() {
                    assert(r[i] == x);
                }
            }
            if r.contains(x) {
                let i = choose|i: int| 0 <= i < r.len() && r[i] == x;
                assert(p[i] == x);
            }
            if x == lo {
                assert(p[r.len() as int] == x);
            }
        }
    }
}

/// The groups of a table hold exactly its present ranks with their counts, each once.
pub proof fn lemma_groups_top_contains(f: Seq<u8>, lo: int, e: (u8, u8))
    requires
        f.len() == 15,
        2 <= lo <= 15,
    ensures
        groups_top(f, lo).contains(e) <==> (lo <= e.0 <= 14 && f[e.0 as int] > 0 && e.1 == f[e.0 as int]),
        groups_top(f, lo).no_duplicates(),
    decreases 15 - lo,
{
    lemma_groups_top_len(f, lo);
    if lo <= 14 {
        lemma_groups_top_contains(f, lo + 1, e);
        lemma_groups_top_len(f, lo + 1);
        let a = groups_top(f, lo + 1);
        let b = group_at(f, lo);
        let g = a + b;
        assert(groups_top(f, lo) == g);
        if g.contains(e) {
            let i = choose|i: int| 0 <= i < g.len() && #[trigger] g[i] == e;
            if i < a.len() {
                assert(a[i] == e);
            } else {
                assert(b[i - a.len()] == e);
            }
        }
        if a.contains(e) {
            let i = choose|i: int| 0 <= i < a.len() && a[i] == e;
            assert(g[i] == e);
        }
        if e.0 == lo && f[lo] > 0 && e.1 == f[lo] {
            assert(g[a.len() as int] == e);
        }
        assert forall|i: int, j: int| 0 <= i < g.len() && 0 <= j < g.len() && i != j implies g[i]
            != g[j] by {
            if i < a.len() && j < a.len() {
                assert(g[i] == a[i] && g[j] == a[j]);
            } else if i < a.len() {
                assert(g[i] == a[i]);
                assert(a[i].0 >= lo + 1);
            } else if j < a.len() {
                assert(g[j] == a[j]);
                assert(a[j].0 >= lo + 1);
            }
        }
    }
}

/// Entry `k` of the buckets: its count and its rank.
pub open spec fn bucket_entry(f: Seq<u8>, k: int) -> (u8, u8) {
    let l4 = ranks_with(f, 4, 2).len() as int;
    let l3 = ranks_with(f, 3, 2).len() as int;
    let l2 = ranks_with(f, 2, 2).len() as int;
    if k < l4 {
        (ranks_with(f, 4, 2)[k], 4u8)
    } else if k < l4 + l3 {
        (ranks_with(f, 3, 2)[k - l4], 3u8)
    } else if k < l4 + l3 + l2 {
        (ranks_with(f, 2, 2)[k - l4 - l3], 2u8)
    } else {
        (ranks_with(f, 1, 2)[k - l4 - l3 - l2], 1u8)
    }
}

/// The buckets entry by entry.
pub proof fn lemma_bucket_entries(f: Seq<u8>)
    ensures
        buckets(f).len() == ranks_with(f, 4, 2).len() + ranks_with(f, 3, 2).len() + ranks_with(
            f,
            2,
            2,
        ).len() + ranks_with(f, 1, 2).len(),
        forall|k: int| 0 <= k < buckets(f).len() ==> #[trigger] buckets(f)[k] == bucket_entry(f, k),
{
    let b4 = with_count(ranks_with(f, 4, 2), 4u8);
    let b3 = with_count(ranks_with(f, 3, 2), 3u8);
    let b2 = with_count(ranks_with(f, 2, 2), 2u8);
    let b1 = with_count(ranks_with(f, 1, 2), 1u8);
    assert(buckets(f) == ((b4 + b3) + b2) + b1);
}

/// When no rank occurs more than four times, the ordered groups are the buckets.
pub proof fn lemma_groups_are_buckets(f: Seq<u8>)
    requires
        f.len() == 15,
        forall|r: int| 2 <= r <= 14 ==> #[trigger] f[r] <= 4,
    ensures
        ordered_groups(f) == buckets(f),
{
    broadcast use vstd::seq_lib::group_to_multiset_ensures;

    let q = buckets(f);
    let g = groups_top(f, 2);
    lemma_bucket_entries(f);
    lemma_ranks_with(f, 4, 2);
    lemma_ranks_with(f, 3, 2);
    lemma_ranks_with(f, 2, 2);
    lemma_ranks_with(f, 1, 2);
    let l4 = ranks_with(f, 4, 2).len() as int;
    let l3 = ranks_with(f, 3, 2).len() as int;
    let l2 = ranks_with(f, 2, 2).len() as int;
    assert forall|i: int, j: int| 0 <= i < j < q.len() implies (group_leq())(q[i], q[j]) by {
        assert(q[i] == bucket_entry(f, i));
        assert(q[j] == bucket_entry(f, j));
        if j < l4 {
            assert(ranks_with(f, 4, 2)[i] > ranks_with(f, 4, 2)[j]);
        } else if i >= l4 && j < l4 + l3 {
            assert(ranks_with(f, 3, 2)[i - l4] > ranks_with(f, 3, 2)[j - l4]);
        } else if i >= l4 + l3 && j < l4 + l3 + l2 {
            assert(ranks_with(f, 2, 2)[i - l4 - l3] > ranks_with(f, 2, 2)[j - l4 - l3]);
        } else if i >= l4 + l3 + l2 {
            assert(ranks_with(f, 1, 2)[i - l4 - l3 - l2] > ranks_with(f, 1, 2)[j - l4 - l3 - l2]);
        }
    }
    assert forall|e: (u8, u8)| q.contains(e) <==> g.contains(e) by {
        lemma_groups_top_contains(f, 2, e);
        lemma_ranks_with_contains(f, e.1 as int, 2, e.0);
        if q.contains(e) {
            let k = choose|k: int| 0 <= k < q.len() && q[k] == e;
            assert(q[k] == bucket_entry(f, k));
            if k < l4 {
                assert(ranks_with(f, 4, 2).contains(e.0));
            } else if k < l4 + l3 {
                assert(ranks_with(f, 3, 2)[k - l4] == e.0);
                assert(ranks_with(f, 3, 2).contains(e.0));
            } else if k < l4 + l3 + l2 {
                assert(ranks_with(f, 2, 2)[k - l4 - l3] == e.0);
                assert(ranks_with(f, 2, 2).contains(e.0));
            } else {
                assert(ranks_with(f, 1, 2)[k - l4 - l3 - l2] == e.0);
                assert(ranks_with(f, 1, 2).contains(e.0));
            }
        }
        if g.contains(e) {
            let rw = ranks_with(f, e.1 as int, 2);
            assert(rw.contains(e.0));
            let i = choose|i: int| 0 <= i < rw.len() && rw[i] == e.0;
            if e.1 == 4 {
                assert(q[i] == bucket_entry(f, i));
            } else if e.1 == 3 {
                assert(q[l4 + i] == bucket_entry(f, l4 + i));
            } else if e.1 == 2 {
                assert(q[l4 + l3 + i] == bucket_entry(f, l4 + l3 + i));
            } else {
                assert(q[l4 + l3 + l2 + i] == bucket_entry(f, l4 + l3 + l2 + i));
            }
        }
    }
    assert(q.no_duplicates()) by {
        assert forall|i: int, j: int| 0 <= i < q.len() && 0 <= j < q.len() && i != j implies q[i]
            != q[j] by {
            if i < j {
                assert((group_leq())(q[i], q[j]));
                assert(q[i] == bucket_entry(f, i));
                assert(q[j] == bucket_entry(f, j));
                if j < l4 {
                    assert(ranks_with(f, 4, 2)[i] > ranks_with(f, 4, 2)[j]);
                } else if i >= l4 && j < l4 + l3 {
                    assert(ranks_with(f, 3, 2)[i - l4] > ranks_with(f, 3, 2)[j - l4]);
                } else if i >= l4 + l3 && j < l4 + l3 + l2 {
                    assert(ranks_with(f, 2, 2)[i - l4 - l3] > ranks_with(f, 2, 2)[j - l4 - l3]);
                } else if i >= l4 + l3 + l2 {
                    assert(ranks_with(f, 1, 2)[i - l4 - l3 - l2] > ranks_with(f, 1, 2)[j - l4 - l3
                        - l2]);
                }
            } else {
                assert(q[i] == bucket_entry(f, i));
                assert(q[j] == bucket_entry(f, j));
                if i < l4 {
                    assert(ranks_with(f, 4, 2)[j] > ranks_with(f, 4, 2)[i]);
                } else if j >= l4 && i < l4 + l3 {
                    assert(ranks_with(f, 3, 2)[j - l4] > ranks_with(f, 3, 2)[i - l4]);
                } else if j >= l4 + l3 && i < l4 + l3 + l2 {
                    assert(ranks_with(f, 2, 2)[j - l4 - l3] > ranks_with(f, 2, 2)[i - l4 - l3]);
                } else if j >= l4 + l3 + l2 {
                    assert(ranks_with(f, 1, 2)[j - l4 - l3 - l2] > ranks_with(f, 1, 2)[i - l4 - l3
                        - l2]);
                }
            }
        }
    }
    lemma_groups_top_contains(f, 2, (0u8, 0u8));
    lemma_distinct_multiset(q, g);
    lemma_group_leq_total();
    g.lemma_sort_by_ensures(group_leq());
    vstd::seq_lib::lemma_sorted_unique(ordered_groups(f), q, group_leq());
}

/// Counting a value in a sequence is counting it in the sequence's multiset.
pub proof fn lemma_count_of_multiset(s: Seq<u8>, r: u8)
    ensures
        count_of(s, r as int) == s.to_multiset().count(r),
    decreases s.len(),
{
    broadcast use vstd::seq_lib::group_to_multiset_ensures;
    broadcast use vstd::multiset::group_multiset_axioms;

    if s.len() > 0 {
        lemma_count_of_multiset(s.drop_last(), r);
        assert(s.drop_last().push(s.last()) =~= s);
    }
}

/// The table's sum is four times its fours, three times its threes, twice its pairs, plus its
/// singles, when no entry exceeds four.
pub proof fn lemma_fsum_buckets(f: Seq<u8>, lo: int)
    requires
        f.len() == 15,
        2 <= lo <= 15,
        forall|r: int| 2 <= r <= 14 ==> #[trigger] f[r] <= 4,
    ensures
        fsum(f, lo) == 4 * ranks_with(f, 4, lo).len() + 3 * ranks_with(f, 3, lo).len() + 2
            * ranks_with(f, 2, lo).len() + ranks_with(f, 1, lo).len(),
    decreases 15 - lo,
{
    if lo <= 14 {
        lemma_fsum_buckets(f, lo + 1);
    }
}

/// The highest run top up to `h` is `a` when `a` tops a run and nothing above it up to `h`
/// does.
pub proof fn lemma_straight_top_is(f: Seq<u8>, h: int, a: int)
    requires
        6 <= a <= h,
        run_at(f, a),
        forall|b: int| a < b <= h ==> !#[trigger] run_at(f, b),
    ensures
        straight_top(f, h) == a,
    decreases h,
{
    if h > a {
        lemma_straight_top_is(f, h - 1, a);
    }
}

/// A run found by the table is a run somewhere.
proof fn lemma_straight_top_found(f: Seq<u8>, h: int)
    requires
        straight_top(f, h) > 0,
    ensures
        6 <= straight_top(f, h) <= h,
        run_at(f, straight_top(f, h)),
    decreases h,
{
    if h >= 6 && !run_at(f, h) {
        lemma_straight_top_found(f, h - 1);
    }
}

/// The count table of five cards is also the count table of their sorted values, a value
/// occurs among them exactly when its count is positive, and the values run down.
pub proof fn lemma_five_values(c: Seq<Card>)
    requires
        c.len() == 5,
    ensures
        freq_of(sorted_values(c)) == freq_of(rank_values(c)),
        forall|x: u8| 0 <= x < 15 ==> (sorted_values(c).contains(x) <==> freq_of(rank_values(c))[x as int] > 0),
        vstd::relations::sorted_by(sorted_values(c), desc_u8()),
        sorted_values(c).len() == 5,
        forall|i: int| 0 <= i < 5 ==> 2 <= #[trigger] sorted_values(c)[i] <= 14,
{
    broadcast use vstd::seq_lib::group_to_multiset_ensures;

    let rv = rank_values(c);
    let v = sorted_values(c);
    lemma_sorted_values(c);
    lemma_desc_u8_total();
    rv.lemma_sort_by_ensures(desc_u8());
    assert forall|r: int| 0 <= r < 15 implies #[trigger] freq_of(v)[r] == freq_of(rv)[r] by {
        lemma_count_of_multiset(v, r as u8);
        lemma_count_of_multiset(rv, r as u8);
    }
    assert(freq_of(v) =~= freq_of(rv));
    assert forall|x: u8| 0 <= x < 15 implies (v.contains(x) <==> freq_of(rv)[x as int] > 0) by {
        lemma_count_of_multiset(v, x);
        lemma_count_of_multiset(rv, x);
        super::model::lemma_count_le_len(rv, x as int);
    }
}

/// Five strictly decreasing ranks that all occur among five cards are their sorted values.
pub proof fn lemma_values_are(c: Seq<Card>, d: Seq<u8>)
    requires
        c.len() == 5,
        d.len() == 5,
        forall|i: int, j: int| 0 <= i < j < 5 ==> #[trigger] d[i] > #[trigger] d[j],
        forall|i: int| 0 <= i < 5 ==> #[trigger] d[i] < 15 && freq_of(rank_values(c))[d[i] as int] > 0,
    ensures
        sorted_values(c) == d,
{
    broadcast use vstd::seq_lib::group_to_multiset_ensures;
    broadcast use vstd::set::group_set_axioms;

    let v = sorted_values(c);
    lemma_five_values(c);
    assert(d.no_duplicates()) by {
        assert forall|i: int, j: int| 0 <= i < 5 && 0 <= j < 5 && i != j implies d[i] != d[j] by {
            if i < j {
                assert(d[i] > d[j]);
            } else {
                assert(d[j] > d[i]);
            }
        }
    }
    d.unique_seq_to_set();
    v.lemma_cardinality_of_set();
    assert(d.to_set().subset_of(v.to_set())) by {
        assert forall|x: u8| d.to_set().contains(x) implies v.to_set().contains(x) by {
            let i = choose|i: int| 0 <= i < d.len() && d[i] == x;
            assert(d[i] < 15 && freq_of(rank_values(c))[d[i] as int] > 0);
            assert(v.contains(x));
        }
    }
    vstd::seq_lib::seq_to_set_is_finite(v);
    vstd::seq_lib::seq_to_set_is_finite(d);
    vstd::set_lib::lemma_len_subset(d.to_set(), v.to_set());
    v.lemma_no_dup_set_cardinality();
    vstd::set_lib::lemma_subset_equality(d.to_set(), v.to_set());
    assert forall|x: u8| v.contains(x) <==> d.contains(x) by {
        if v.contains(x) {
            assert(v.to_set().contains(x));
            assert(d.to_set().contains(x));
        }
        if d.contains(x) {
            assert(d.to_set().contains(x));
        }
    }
    super::agree::lemma_distinct_multiset(v, d);
    lemma_desc_u8_total();
    assert(vstd::relations::sorted_by(d, desc_u8())) by {
        assert forall|i: int, j: int| 0 <= i < j < d.len() implies (desc_u8())(d[i], d[j]) by {
            assert(d[i] > d[j]);
        }
    }
    vstd::seq_lib::lemma_sorted_unique(v, d, desc_u8());
}

/// Sorted values without a repeat leave every count at most one.
proof fn lemma_distinct_values_counts(c: Seq<Card>)
    requires
        c.len() == 5,
        sorted_values(c).no_duplicates(),
    ensures
        forall|r: int| 2 <= r <= 14 ==> #[trigger] freq_of(rank_values(c))[r] <= 1,
{
    broadcast use vstd::seq_lib::group_to_multiset_ensures;

    let v = sorted_values(c);
    lemma_five_values(c);
    v.lemma_multiset_has_no_duplicates();
    assert forall|r: int| 2 <= r <= 14 implies #[trigger] freq_of(rank_values(c))[r] <= 1 by {
        lemma_count_of_multiset(v, r as u8);
        super::model::lemma_count_le_len(v, r);
        assert(freq_of(v)[r] == count_of(v, r) as u8);
    }
}

/// Five distinct cards of one suit have five different ranks.
proof fn lemma_flush_values_distinct(c: Seq<Card>)
    requires
        c.len() == 5,
        c.no_duplicates(),
        flush5(c),
    ensures
        sorted_values(c).no_duplicates(),
{
    broadcast use vstd::seq_lib::group_to_multiset_ensures;

    let rv = rank_values(c);
    let v = sorted_values(c);
    assert(rv.no_duplicates()) by {
        assert forall|i: int, j: int| 0 <= i < 5 && 0 <= j < 5 && i != j implies rv[i] != rv[j] by {
            assert(c[i].suit == c[j].suit);
            if rv[i] == rv[j] {
                super::agree::lemma_same_card(c[i], c[j]);
            }
        }
    }
    lemma_sorted_values(c);
    rv.lemma_multiset_has_no_duplicates();
    assert forall|x: u8| v.to_multiset().contains(x) implies v.to_multiset().count(x) == 1 by {}
    v.lemma_multiset_has_no_duplicates_conv();
}

/// Present ranks are the single ranks when no count exceeds one.
proof fn lemma_present_are_singles(f: Seq<u8>, lo: int)
    requires
        f.len() == 15,
        2 <= lo <= 15,
        forall|r: int| 2 <= r <= 14 ==> #[trigger] f[r] <= 1,
    ensures
        ranks_present(f, lo) == ranks_with(f, 1, lo),
    decreases 15 - lo,
{
    if lo <= 14 {
        lemma_present_are_singles(f, lo + 1);
    }
}

/// Five strictly decreasing values have no repeat.
proof fn lemma_strict_distinct(v: Seq<u8>)
    requires
        v.len() == 5,
        forall|i: int, j: int| 0 <= i < j < 5 ==> #[trigger] v[i] > #[trigger] v[j],
    ensures
        v.no_duplicates(),
{
    assert forall|i: int, j: int| 0 <= i < 5 && 0 <= j < 5 && i != j implies v[i] != v[j] by {
        if i < j {
            assert(v[i] > v[j]);
        } else {
            assert(v[j] > v[i]);
        }
    }
}

/// Five consecutive ranks from `h` down.
pub open spec fn run_down(h: int) -> Seq<u8> {
    seq![h as u8, (h - 1) as u8, (h - 2) as u8, (h - 3) as u8, (h - 4) as u8]
}

/// Ace, Five, Four, Three, Two.
pub open spec fn wheel_ranks() -> Seq<u8> {
    seq![14u8, 5u8, 4u8, 3u8, 2u8]
}

/// With a repeated rank among five cards there is no flush of distinct cards, no straight
/// and no wheel.
proof fn lemma_repeat_excludes(c: Seq<Card>, r: int)
    requires
        c.len() == 5,
        c.no_duplicates(),
        2 <= r <= 14,
        freq_of(rank_values(c))[r] >= 2,
    ensures
        !flush5(c),
        !straight5(sorted_values(c)),
        !wheel5(sorted_values(c)),
        straight_top(freq_of(rank_values(c)), 14) == 0,
        !wheel_in(freq_of(rank_values(c))),
{
    let f = freq_of(rank_values(c));
    let v = sorted_values(c);
    lemma_five_values(c);
    if flush5(c) {
        lemma_flush_values_distinct(c);
        lemma_distinct_values_counts(c);
    }
    if straight5(v) || wheel5(v) {
        lemma_strict_distinct(v);
        lemma_distinct_values_counts(c);
    }
    let top = straight_top(f, 14);
    super::model::lemma_straight_top_bound(f, 14);
    if top > 0 {
        lemma_straight_top_found(f, 14);
        let d = run_down(top);
        assert forall|i: int, j: int| 0 <= i < j < 5 implies #[trigger] d[i] > #[trigger] d[j] by {}
        lemma_values_are(c, d);
        assert(v == d);
        lemma_strict_distinct(v);
        lemma_distinct_values_counts(c);
        assert(f[r] <= 1);
    }
    if wheel_in(f) {
        lemma_values_are(c, wheel_ranks());
        lemma_strict_distinct(v);
        lemma_distinct_values_counts(c);
    }
}

/// The setting shared by the two cases: counts at most four, groups as buckets, and the
/// bucket sizes weighted by their counts adding up to five.
proof fn lemma_bucket_setting(c: Seq<Card>)
    requires
        c.len() == 5,
        c.no_duplicates(),
    ensures
        forall|r: int| 2 <= r <= 14 ==> #[trigger] freq_of(rank_values(c))[r] <= 4,
        ordered_groups(freq_of(rank_values(c))) == buckets(freq_of(rank_values(c))),
        freq_of(sorted_values(c)) == freq_of(rank_values(c)),
        4 * ranks_with(freq_of(rank_values(c)), 4, 2).len() + 3 * ranks_with(freq_of(rank_values(c)), 3, 2).len()
            + 2 * ranks_with(freq_of(rank_values(c)), 2, 2).len() + ranks_with(freq_of(rank_values(c)), 1, 2).len()
            == 5,
{
    let rv = rank_values(c);
    let f = freq_of(rv);
    let v = sorted_values(c);
    lemma_five_values(c);
    assert forall|r: int| 2 <= r <= 14 implies #[trigger] f[r] <= 4 by {
        super::deal::lemma_rank_at_most_four(c, r);
        super::model::lemma_count_le_len(rv, r);
    }
    lemma_groups_are_buckets(f);
    lemma_fsum_buckets(f, 2);
    super::score::lemma_count_freq_sum(v);
}

/// Five distinct ranks: both evaluators read flushes, straights and high cards alike.
proof fn lemma_buckets_agree_singles(c: Seq<Card>)
    requires
        c.len() == 5,
        c.no_duplicates(),
        ranks_with(freq_of(rank_values(c)), 4, 2).len() == 0,
        ranks_with(freq_of(rank_values(c)), 3, 2).len() == 0,
        ranks_with(freq_of(rank_values(c)), 2, 2).len() == 0,
    ensures
        eval5_buckets_spec(c) == eval5_spec(c),
{
    let f = freq_of(rank_values(c));
    let v = sorted_values(c);
    lemma_bucket_setting(c);
    lemma_five_values(c);
    lemma_bucket_entries(f);
    lemma_ranks_with(f, 1, 2);
    let b1 = ranks_with(f, 1, 2);
    let top = straight_top(f, 14);
    assert forall|r: int| 2 <= r <= 14 implies #[trigger] f[r] <= 1 by {
        lemma_ranks_with_contains(f, f[r] as int, 2, r as u8);
    }
    lemma_values_are(c, b1);
    lemma_present_are_singles(f, 2);
    if straight5(v) {
        assert(run_at(f, v[0] as int)) by {
            assert(v.contains(v[0]) && v.contains(v[1]) && v.contains(v[2]) && v.contains(v[3])
                && v.contains(v[4]));
        }
        assert forall|b: int| v[0] < b <= 14 implies !#[trigger] run_at(f, b) by {
            if run_at(f, b) {
                assert(v.contains(b as u8));
                let i = choose|i: int| 0 <= i < 5 && v[i] == b as u8;
                assert((desc_u8())(v[0], v[i]));
            }
        }
        lemma_straight_top_is(f, 14, v[0] as int);
    }
    if top > 0 {
        lemma_straight_top_found(f, 14);
        lemma_values_are(c, run_down(top));
    }
    if wheel_in(f) {
        lemma_values_are(c, wheel_ranks());
    }
    if wheel5(v) {
        assert(v.contains(v[0]) && v.contains(v[1]) && v.contains(v[2]) && v.contains(v[3])
            && v.contains(v[4]));
    }
    assert(ordered_groups(f)[0] == bucket_entry(f, 0));
}

/// A repeated rank: both evaluators read the same groups.
proof fn lemma_buckets_agree_groups(c: Seq<Card>)
    requires
        c.len() == 5,
        c.no_duplicates(),
        ranks_with(freq_of(rank_values(c)), 4, 2).len() + ranks_with(freq_of(rank_values(c)), 3, 2).len()
            + ranks_with(freq_of(rank_values(c)), 2, 2).len() > 0,
    ensures
        eval5_buckets_spec(c) == eval5_spec(c),
{
    let f = freq_of(rank_values(c));
    let g = ordered_groups(f);
    lemma_bucket_setting(c);
    lemma_bucket_entries(f);
    lemma_ranks_with(f, 4, 2);
    lemma_ranks_with(f, 3, 2);
    lemma_ranks_with(f, 2, 2);
    lemma_ranks_with(f, 1, 2);
    let b4 = ranks_with(f, 4, 2);
    let b3 = ranks_with(f, 3, 2);
    let b2 = ranks_with(f, 2, 2);
    if b4.len() > 0 {
        lemma_repeat_excludes(c, b4[0] as int);
    } else if b3.len() > 0 {
        lemma_repeat_excludes(c, b3[0] as int);
    } else {
        lemma_repeat_excludes(c, b2[0] as int);
    }
    assert(g[0] == bucket_entry(f, 0));
    if g.len() > 1 {
        assert(g[1] == bucket_entry(f, 1));
    }
    if g.len() > 2 {
        assert(g[2] == bucket_entry(f, 2));
    }
    if g.len() > 3 {
        assert(g[3] == bucket_entry(f, 3));
    }
}

/// On five distinct cards, the bucket-scanning evaluator gives the sorting evaluator's code.
pub proof fn lemma_buckets_agree(c: Seq<Card>)
    requires
        c.len() == 5,
        c.no_duplicates(),
    ensures
        eval5_buckets_spec(c) == eval5_spec(c),
{
    let f = freq_of(rank_values(c));
    if ranks_with(f, 4, 2).len() + ranks_with(f, 3, 2).len() + ranks_with(f, 2, 2).len() == 0 {
        lemma_buckets_agree_singles(c);
    } else {
        lemma_buckets_agree_groups(c);
    }
}

/// Five of seven distinct cards are distinct.
pub proof fn lemma_pick5_distinct(s: Seq<Card>, j0: int, j1: int, j2: int, j3: int, j4: int)
    requires
        s.len() == 7,
        s.no_duplicates(),
        combo5(j0, j1, j2, j3, j4),
    ensures
        pick5(s, j0, j1, j2, j3, j4).no_duplicates(),
{
    let p = pick5(s, j0, j1, j2, j3, j4);
    let idx = seq![j0, j1, j2, j3, j4];
    assert forall|a: int, b: int| 0 <= a < 5 && 0 <= b < 5 && a != b implies p[a] != p[b] by {
        assert(p[a] == s[idx[a]] && p[b] == s[idx[b]]);
        assert(idx[a] != idx[b]);
    }
}

/// Over seven distinct cards, the best bucket-scanning code of the twenty-one subsets is the
/// best sorting code.
pub proof fn lemma_best_buckets_agree(s: Seq<Card>)
    requires
        s.len() == 7,
        s.no_duplicates(),
    ensures
        best21(s, eval5_buckets_fn()) == best21(s, eval5_fn()),
{
    let m = super::agree::scores21(s, eval5_fn()).max();
    lemma_best21_exists(s, eval5_fn());
    assert forall|j0: int, j1: int, j2: int, j3: int, j4: int|
        combo5(j0, j1, j2, j3, j4) implies eval5_buckets_fn()(#[trigger] pick5(s, j0, j1, j2, j3, j4))
        <= m by {
        lemma_pick5_distinct(s, j0, j1, j2, j3, j4);
        lemma_buckets_agree(pick5(s, j0, j1, j2, j3, j4));
        assert(eval5_fn()(pick5(s, j0, j1, j2, j3, j4)) <= m);
    }
    let (a0, a1, a2, a3, a4) = choose|j0: int, j1: int, j2: int, j3: int, j4: int|
        combo5(j0, j1, j2, j3, j4) && eval5_fn()(#[trigger] pick5(s, j0, j1, j2, j3, j4)) == m;
    lemma_pick5_distinct(s, a0, a1, a2, a3, a4);
    lemma_buckets_agree(pick5(s, a0, a1, a2, a3, a4));
    assert(eval5_buckets_fn()(pick5(s, a0, a1, a2, a3, a4)) == m);
    assert(super::model::is_best_of_21(s, eval5_buckets_fn(), m));
    lemma_best21_unique(s, eval5_buckets_fn(), m);
    lemma_best21_unique(s, eval5_fn(), m);
}

/// When no card is given twice, the bucket-scanning evaluator gives the sorting evaluator's
/// codes in every deal, so with the same seed and shuffle both count exactly the same wins and
/// categories.
pub proof fn lemma_buckets_counts(
    kind: Shuffle,
    s: Seq<Option<Card>>,
    x: u64,
    r: nat,
    i: int,
    k: int,
)
    requires
        distinct_given(s),
        none_count(s) <= residual_deck(s).len(),
        s.len() >= 5,
        (s.len() - 5) % 2 == 0,
    ensures
        win_count(Scorer::Buckets, kind, s, x, r, i, k) == win_count(Scorer::Sorted, kind, s, x, r, i, k),
        category_count(Scorer::Buckets, kind, s, x, r, i, k) == category_count(
            Scorer::Sorted,
            kind,
            s,
            x,
            r,
            i,
            k,
        ),
{
    assert forall|t: nat| 1 <= t <= r implies #[trigger] round_scores(Scorer::Buckets, kind, s, x, t)
        == round_scores(Scorer::Sorted, kind, s, x, t) by {
        let n = players_of(s);
        let d = state_after(kind, s, x, t).0;
        lemma_state_fresh(kind, s, x, t);
        let a = round_scores(Scorer::Buckets, kind, s, x, t);
        let b = round_scores(Scorer::Sorted, kind, s, x, t);
        assert forall|p: int| 0 <= p < a.len() implies a[p] == b[p] by {
            lemma_seven_distinct(s, n, d, p);
            lemma_best_buckets_agree(seven_of(s, n, d, p));
        }
        assert(a =~= b);
    }
    lemma_same_scores_same_counts(Scorer::Buckets, Scorer::Sorted, kind, s, x, r, i, k);
}

} // verus!
