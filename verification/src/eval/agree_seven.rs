//! The direct seven-card evaluator and the best of the twenty-one five-card subsets: reading
//! the count and suit tables of seven distinct cards gives the best code of five of them.

use vstd::prelude::*;
use vstd::multiset::Multiset;
use crate::card::{Card, Suit};
use super::score::{best21, Scorer};
use super::agree::lemma_best21_exists;
use super::deal::{distinct_given, lemma_seven_distinct, none_count, residual_deck, seven_of};
use super::sim::{category_count, win_count, lemma_state_fresh, players_of, round_scores, state_after, Shuffle};
use super::sort::desc_u8;
use super::{category_of, code_of, lemma_code_order};
use super::agree_buckets::{
    bucket_entry, buckets, lemma_count_of_multiset, lemma_bucket_entries, lemma_fsum_buckets, lemma_groups_are_buckets,
    lemma_ranks_with_contains,
};
use super::model::{
    high_except, lemma_high_except, suit_ranks, first_run, flush_code, ranks_present, run_from, combo5, count_of, eval5_fn, eval7_spec, is_best_of_21, eval5_buckets_spec, flush5, flush_suit, freq_of, pick5, rank_values,
    suit_count, suit_counts, fsum, gat, last_or_zero, lemma_ranks_with,
    lemma_straight_top_bound, non_flush_code, ordered_groups, ranks_with, run_at,
    straight_top, vat, wheel_in,
};

verus! {

/// The bucket evaluator's code of five cards that are not all of one suit, read from their
/// count table.
pub open spec fn nonflush5(f: Seq<u8>) -> int {
    let top = straight_top(f, 14);
    let st = top > 0;
    let wh = !st && wheel_in(f);
    let q = last_or_zero(ranks_with(f, 4, 2));
    let t = last_or_zero(ranks_with(f, 3, 2));
    let p = ranks_with(f, 2, 2);
    let sg = ranks_with(f, 1, 2);
    if q > 0 {
        code_of(7, q, vat(sg, 0), 0, 0, 0)
    } else if t > 0 && p.len() > 0 {
        code_of(6, t, vat(p, 0), 0, 0, 0)
    } else if st {
        code_of(4, top, 0, 0, 0, 0)
    } else if wh {
        code_of(4, 5, 0, 0, 0, 0)
    } else if t > 0 {
        code_of(3, t, vat(sg, 0), vat(sg, 1), 0, 0)
    } else if p.len() == 2 {
        code_of(2, vat(p, 0), vat(p, 1), vat(sg, 0), 0, 0)
    } else if p.len() == 1 {
        code_of(1, vat(p, 0), vat(sg, 0), vat(sg, 1), vat(sg, 2), 0)
    } else {
        code_of(0, vat(sg, 0), vat(sg, 1), vat(sg, 2), vat(sg, 3), vat(sg, 4))
    }
}

/// Five cards not all of one suit: the bucket evaluator reads their count table only.
pub proof fn lemma_buckets_nonflush(c: Seq<Card>)
    requires
        !flush5(c),
    ensures
        eval5_buckets_spec(c) == nonflush5(freq_of(rank_values(c))),
{
}

/// A count table of `n` cards: fifteen entries, none above four from Two to Ace, adding up
/// to `n`.
pub open spec fn card_table(f: Seq<u8>, n: int) -> bool {
    &&& f.len() == 15
    &&& forall|r: int| 2 <= r <= 14 ==> #[trigger] f[r] <= 4
    &&& fsum(f, 2) == n
}

/// Table `g` counts no rank more often than table `f`.
pub open spec fn below(g: Seq<u8>, f: Seq<u8>) -> bool {
    forall|r: int| 2 <= r <= 14 ==> #[trigger] g[r] <= f[r]
}

/// Ranks that all lie in a strictly decreasing list, themselves strictly decreasing, are
/// entry by entry at most the list's first entries.
pub proof fn lemma_prefix_bound(l: Seq<u8>, xs: Seq<u8>)
    requires
        forall|i: int, j: int| 0 <= i < j < l.len() ==> #[trigger] l[i] > #[trigger] l[j],
        forall|i: int, j: int| 0 <= i < j < xs.len() ==> #[trigger] xs[i] > #[trigger] xs[j],
        forall|i: int| 0 <= i < xs.len() ==> l.contains(#[trigger] xs[i]),
    ensures
        xs.len() <= l.len(),
        forall|i: int| 0 <= i < xs.len() ==> #[trigger] xs[i] <= l[i],
{
    assert forall|i: int| 0 <= i < xs.len() implies #[trigger] xs[i] <= l[i] by {
        lemma_position_at_least(l, xs, i);
    }
    if xs.len() > 0 {
        lemma_position_at_least(l, xs, xs.len() - 1);
    }
}

/// Entry `i` of the ranks sits at position `i` or later of the list.
proof fn lemma_position_at_least(l: Seq<u8>, xs: Seq<u8>, i: int)
    requires
        forall|a: int, b: int| 0 <= a < b < l.len() ==> #[trigger] l[a] > #[trigger] l[b],
        forall|a: int, b: int| 0 <= a < b < xs.len() ==> #[trigger] xs[a] > #[trigger] xs[b],
        forall|a: int| 0 <= a < xs.len() ==> l.contains(#[trigger] xs[a]),
        0 <= i < xs.len(),
    ensures
        exists|p: int| i <= p < l.len() && l[p] == xs[i],
        i < l.len(),
        xs[i] <= l[i],
    decreases i,
{
    assert(l.contains(xs[i]));
    let p = choose|p: int| 0 <= p < l.len() && l[p] == xs[i];
    if i > 0 {
        lemma_position_at_least(l, xs, i - 1);
        let p0 = choose|p0: int| i - 1 <= p0 < l.len() && l[p0] == xs[i - 1];
        assert(xs[i - 1] > xs[i]);
        if p <= p0 {
            if p < p0 {
                assert(l[p] > l[p0]);
            }
        }
        assert(p > p0);
    }
    assert(p >= i);
    if p > i {
        assert(l[i] > l[p]);
    }
}

/// A run in a smaller table is a run in the larger one, so its top is no higher.
pub proof fn lemma_top_mono(g: Seq<u8>, f: Seq<u8>, h: int)
    requires
        below(g, f),
        h <= 14,
    ensures
        straight_top(g, h) > 0 ==> straight_top(g, h) <= straight_top(f, h),
    decreases h,
{
    if h >= 6 {
        if !run_at(g, h) {
            lemma_top_mono(g, f, h - 1);
            if !run_at(f, h) {
            } else {
                lemma_straight_top_bound(g, h - 1);
            }
        } else {
            assert(g[h] <= f[h] && g[h - 1] <= f[h - 1] && g[h - 2] <= f[h - 2] && g[h - 3] <= f[h
                - 3] && g[h - 4] <= f[h - 4]);
        }
    }
}

/// The setting of a table: its groups are its buckets, entry by entry, and its bucket sizes
/// weighted by count add up to its number of cards.
proof fn lemma_table_setting(f: Seq<u8>, n: int)
    requires
        card_table(f, n),
    ensures
        ordered_groups(f) == buckets(f),
        forall|k: int| 0 <= k < buckets(f).len() ==> #[trigger] buckets(f)[k] == bucket_entry(f, k),
        buckets(f).len() == ranks_with(f, 4, 2).len() + ranks_with(f, 3, 2).len() + ranks_with(
            f,
            2,
            2,
        ).len() + ranks_with(f, 1, 2).len(),
        4 * ranks_with(f, 4, 2).len() + 3 * ranks_with(f, 3, 2).len() + 2 * ranks_with(f, 2, 2).len()
            + ranks_with(f, 1, 2).len() == n,
        forall|c: int, i: int|
            1 <= c <= 4 && 0 <= i < ranks_with(f, c, 2).len() ==> 2 <= #[trigger] ranks_with(f, c, 2)[i]
                <= 14 && f[ranks_with(f, c, 2)[i] as int] == c,
        forall|c: int, i: int, j: int|
            1 <= c <= 4 && 0 <= i < j < ranks_with(f, c, 2).len() ==> #[trigger] ranks_with(f, c, 2)[i]
                > #[trigger] ranks_with(f, c, 2)[j],
{
    lemma_groups_are_buckets(f);
    lemma_bucket_entries(f);
    lemma_fsum_buckets(f, 2);
    assert forall|c: int, i: int|
        1 <= c <= 4 && 0 <= i < ranks_with(f, c, 2).len() implies 2 <= #[trigger] ranks_with(f, c, 2)[i]
            <= 14 && f[ranks_with(f, c, 2)[i] as int] == c by {
        lemma_ranks_with(f, c, 2);
    }
    assert forall|c: int, i: int, j: int|
        1 <= c <= 4 && 0 <= i < j < ranks_with(f, c, 2).len() implies #[trigger] ranks_with(f, c, 2)[i]
            > #[trigger] ranks_with(f, c, 2)[j] by {
        lemma_ranks_with(f, c, 2);
    }
}

/// A present rank lies in the bucket of its count, at most that bucket's first rank.
proof fn lemma_in_bucket(f: Seq<u8>, n: int, y: int)
    requires
        card_table(f, n),
        2 <= y <= 14,
        f[y] >= 1,
    ensures
        ranks_with(f, f[y] as int, 2).contains(y as u8),
        ranks_with(f, f[y] as int, 2).len() >= 1,
        y <= ranks_with(f, f[y] as int, 2)[0],
{
    lemma_table_setting(f, n);
    lemma_ranks_with_contains(f, f[y] as int, 2, y as u8);
    let b = ranks_with(f, f[y] as int, 2);
    let i = choose|i: int| 0 <= i < b.len() && b[i] == y as u8;
    if i > 0 {
        assert(b[0] > b[i]);
    }
}

/// Everything needed about the two tables, gathered once.
pub open spec fn pair_setting(f: Seq<u8>, g: Seq<u8>) -> bool {
    &&& card_table(f, 7)
    &&& card_table(g, 5)
    &&& below(g, f)
}

/// Four of a kind among five cards is never better than the seven-card reading.
proof fn lemma_upper_quads(f: Seq<u8>, g: Seq<u8>)
    requires
        pair_setting(f, g),
        last_or_zero(ranks_with(g, 4, 2)) > 0,
    ensures
        nonflush5(g) <= read_seven(f),
{
    lemma_table_setting(f, 7);
    lemma_table_setting(g, 5);
    let g4 = ranks_with(g, 4, 2);
    let g1 = ranks_with(g, 1, 2);
    let f4 = ranks_with(f, 4, 2);
    assert(g4.len() == 1);
    let q = g4[0];
    assert(g[q as int] == 4);
    assert(f[q as int] == 4);
    lemma_in_bucket(f, 7, q as int);
    assert(f4.len() == 1);
    assert(f4[0] == q);
    assert(g1.len() == 1);
    let y = g1[0];
    assert(g[y as int] == 1);
    assert(y != q);
    assert(f[y as int] >= 1);
    let k = high_except(f, q as int, 0, 14);
    lemma_high_except(f, q as int, 0, 14);
    assert(y <= k);
    lemma_code_order(7, q as int, y as int, 0, 0, 0, 7, q as int, k, 0, 0, 0);
}

/// A code of category `a` is below any code of a higher category.
proof fn lemma_lower_category(
    a: int,
    a0: int,
    a1: int,
    a2: int,
    a3: int,
    a4: int,
    b: int,
    b0: int,
    b1: int,
    b2: int,
    b3: int,
    b4: int,
)
    requires
        super::nibbles(a, a0, a1, a2, a3, a4),
        super::nibbles(b, b0, b1, b2, b3, b4),
        a < b,
    ensures
        code_of(a, a0, a1, a2, a3, a4) < code_of(b, b0, b1, b2, b3, b4),
{
    lemma_code_order(a, a0, a1, a2, a3, a4, b, b0, b1, b2, b3, b4);
}

/// Every argument of the seven-card reading is a nibble.
proof fn lemma_non_flush_nibbles(f: Seq<u8>)
    requires
        card_table(f, 7),
    ensures
        non_flush_code(f) >= 0,
        forall|i: int| 0 <= i < 5 ==> 0 <= #[trigger] gat(ordered_groups(f), i).0 <= 14,
        0 <= straight_top(f, 14) <= 14,
{
    super::lut::lemma_non_flush_code_bound(f);
    lemma_table_setting(f, 7);
    lemma_straight_top_bound(f, 14);
    assert forall|i: int| 0 <= i < 5 implies 0 <= #[trigger] gat(ordered_groups(f), i).0 <= 14 by {
        if i < ordered_groups(f).len() {
            assert(ordered_groups(f)[i] == bucket_entry(f, i));
        }
    }
}

/// A full house among five cards is never better than the seven-card reading.
proof fn lemma_upper_full(f: Seq<u8>, g: Seq<u8>)
    requires
        pair_setting(f, g),
        last_or_zero(ranks_with(g, 4, 2)) == 0,
        last_or_zero(ranks_with(g, 3, 2)) > 0,
        ranks_with(g, 2, 2).len() > 0,
    ensures
        nonflush5(g) <= non_flush_code(f),
{
    lemma_read_kickers(f);
    lemma_table_setting(f, 7);
    lemma_table_setting(g, 5);
    lemma_non_flush_nibbles(f);
    let g3 = ranks_with(g, 3, 2);
    let g2 = ranks_with(g, 2, 2);
    let f4 = ranks_with(f, 4, 2);
    let f3 = ranks_with(f, 3, 2);
    let f2 = ranks_with(f, 2, 2);
    assert(g3.len() == 1 && g2.len() == 1);
    let t = g3[0];
    let p = g2[0];
    assert(g[t as int] == 3 && g[p as int] == 2);
    lemma_in_bucket(f, 7, t as int);
    lemma_in_bucket(f, 7, p as int);
    let gr = ordered_groups(f);
    assert(gr[0] == bucket_entry(f, 0));
    assert(gr.len() >= 2);
    assert(gr[1] == bucket_entry(f, 1));
    let code_g = code_of(6, t as int, p as int, 0, 0, 0);
    assert(nonflush5(g) == code_g);
    if f4.len() > 0 {
        lemma_lower_category(6, t as int, p as int, 0, 0, 0, 7, gat(gr, 0).0 as int, gat(gr, 1).0 as int, 0, 0, 0);
    } else {
        assert(f[t as int] == 3);
        assert(f3.len() >= 1);
        let r0 = f3[0];
        let r1 = gat(gr, 1).0;
        assert(gat(gr, 1).1 >= 2) by {
            if f3.len() == 1 {
                assert(f[p as int] == 2);
                assert(f2.len() >= 1);
            }
        }
        assert(t <= r0);
        if t == r0 {
            assert(p <= r1) by {
                if f3.len() >= 2 {
                    assert(f3.len() == 2);
                    assert(f2.len() == 0);
                    assert(f[p as int] == 3);
                    assert(f3.contains(p));
                    let i = choose|i: int| 0 <= i < f3.len() && f3[i] == p;
                    assert(i == 1);
                } else {
                    assert(f[p as int] == 2);
                }
            }
        }
        lemma_code_order(6, t as int, p as int, 0, 0, 0, 6, r0 as int, r1 as int, 0, 0, 0);
    }
}

/// The seven-card reading bucket by bucket: four of a kind with the highest other rank, full
/// house from the top threes and the next group, straight, wheel, three of a kind with the
/// two top singles, two pair with the highest other rank, pair with three singles, high card.
spec fn read_seven(f: Seq<u8>) -> int {
    let f4 = ranks_with(f, 4, 2);
    let f3 = ranks_with(f, 3, 2);
    let f2 = ranks_with(f, 2, 2);
    let f1 = ranks_with(f, 1, 2);
    let top = straight_top(f, 14);
    if f4.len() > 0 {
        code_of(7, f4[0] as int, high_except(f, f4[0] as int, 0, 14), 0, 0, 0)
    } else if f3.len() > 0 && (f3.len() > 1 || f2.len() > 0) {
        code_of(
            6,
            f3[0] as int,
            if f3.len() > 1 {
                f3[1] as int
            } else {
                f2[0] as int
            },
            0,
            0,
            0,
        )
    } else if top > 0 {
        code_of(4, top, 0, 0, 0, 0)
    } else if wheel_in(f) {
        code_of(4, 5, 0, 0, 0, 0)
    } else if f3.len() > 0 {
        code_of(3, f3[0] as int, f1[0] as int, f1[1] as int, 0, 0)
    } else if f2.len() > 1 {
        code_of(2, f2[0] as int, f2[1] as int, high_except(f, f2[0] as int, f2[1] as int, 14), 0, 0)
    } else if f2.len() > 0 {
        code_of(1, f2[0] as int, f1[0] as int, f1[1] as int, f1[2] as int, 0)
    } else {
        code_of(0, f1[0] as int, f1[1] as int, f1[2] as int, f1[3] as int, f1[4] as int)
    }
}

/// The seven-card reading of a table of seven cards, bucket by bucket.
proof fn lemma_read_seven(f: Seq<u8>)
    requires
        card_table(f, 7),
    ensures
        non_flush_code(f) == read_seven(f),
{
    lemma_table_setting(f, 7);
    let gr = ordered_groups(f);
    let f4 = ranks_with(f, 4, 2);
    let f3 = ranks_with(f, 3, 2);
    let f2 = ranks_with(f, 2, 2);
    let f1 = ranks_with(f, 1, 2);
    assert(f4.len() <= 1);
    assert(gr.len() >= 2);
    assert(gr[0] == bucket_entry(f, 0));
    assert(gr[1] == bucket_entry(f, 1));
    if gr.len() > 2 {
        assert(gr[2] == bucket_entry(f, 2));
    }
    if gr.len() > 3 {
        assert(gr[3] == bucket_entry(f, 3));
    }
    if gr.len() > 4 {
        assert(gr[4] == bucket_entry(f, 4));
    }
    lemma_non_flush_nibbles(f);
    if f4.len() > 0 {
        assert(gat(gr, 0).1 == 4);
    } else if f3.len() > 0 {
        assert(gat(gr, 0) == (f3[0], 3u8));
        if f3.len() > 1 {
            assert(gat(gr, 1) == (f3[1], 3u8));
        } else if f2.len() > 0 {
            assert(gat(gr, 1) == (f2[0], 2u8));
        } else {
            assert(f1.len() == 4);
            assert(gat(gr, 1) == (f1[0], 1u8));
            assert(gat(gr, 2) == (f1[1], 1u8));
        }
    } else if f2.len() > 0 {
        assert(gat(gr, 0) == (f2[0], 2u8));
        if f2.len() > 1 {
            assert(gat(gr, 1) == (f2[1], 2u8));
            if f2.len() > 2 {
                assert(gat(gr, 2) == (f2[2], 2u8));
            } else {
                assert(gat(gr, 2) == (f1[0], 1u8));
            }
        } else {
            assert(f1.len() == 5);
            assert(gat(gr, 1) == (f1[0], 1u8));
            assert(gat(gr, 2) == (f1[1], 1u8));
            assert(gat(gr, 3) == (f1[2], 1u8));
        }
    } else {
        assert(f1.len() == 7);
        assert(gat(gr, 0) == (f1[0], 1u8));
        assert(gat(gr, 1) == (f1[1], 1u8));
        assert(gat(gr, 2) == (f1[2], 1u8));
        assert(gat(gr, 3) == (f1[3], 1u8));
        assert(gat(gr, 4) == (f1[4], 1u8));
    }
}

/// The facts about both tables that every comparison below uses.
proof fn lemma_pair_facts(f: Seq<u8>, g: Seq<u8>)
    requires
        pair_setting(f, g),
    ensures
        non_flush_code(f) == read_seven(f),
        0 <= straight_top(f, 14) <= 14,
        0 <= straight_top(g, 14) <= 14,
        straight_top(g, 14) > 0 ==> straight_top(g, 14) <= straight_top(f, 14),
        straight_top(f, 14) > 0 ==> straight_top(f, 14) >= 6,
        wheel_in(g) ==> wheel_in(f),
        ranks_with(f, 4, 2).len() <= 1,
        ranks_with(g, 4, 2).len() <= 1,
        ranks_with(g, 3, 2).len() <= 1,
{
    lemma_table_setting(f, 7);
    lemma_table_setting(g, 5);
    lemma_read_seven(f);
    lemma_straight_top_bound(f, 14);
    lemma_straight_top_bound(g, 14);
    lemma_top_mono(g, f, 14);
    if wheel_in(g) {
        assert(g[14] <= f[14] && g[5] <= f[5] && g[4] <= f[4] && g[3] <= f[3] && g[2] <= f[2]);
    }
    lemma_read_kickers(f);
}

/// The kickers the seven-card reading takes are ranks or 0.
proof fn lemma_read_kickers(f: Seq<u8>)
    requires
        card_table(f, 7),
    ensures
        ranks_with(f, 4, 2).len() > 0 ==> 0 <= high_except(f, ranks_with(f, 4, 2)[0] as int, 0, 14)
            <= 14,
        ranks_with(f, 2, 2).len() > 1 ==> 0 <= high_except(
            f,
            ranks_with(f, 2, 2)[0] as int,
            ranks_with(f, 2, 2)[1] as int,
            14,
        ) <= 14,
{
    let f4 = ranks_with(f, 4, 2);
    let f2 = ranks_with(f, 2, 2);
    if f4.len() > 0 {
        lemma_high_except(f, f4[0] as int, 0, 14);
    }
    if f2.len() > 1 {
        lemma_high_except(f, f2[0] as int, f2[1] as int, 14);
    }
}

/// A straight among five cards is never better than the seven-card reading.
proof fn lemma_upper_straight(f: Seq<u8>, g: Seq<u8>)
    requires
        pair_setting(f, g),
        ranks_with(g, 4, 2).len() == 0,
        straight_top(g, 14) > 0,
    ensures
        code_of(4, straight_top(g, 14), 0, 0, 0, 0) <= read_seven(f),
{
    lemma_read_kickers(f);
    lemma_pair_facts(f, g);
    lemma_table_setting(f, 7);
    let top = straight_top(f, 14);
    let f4 = ranks_with(f, 4, 2);
    let f3 = ranks_with(f, 3, 2);
    let f2 = ranks_with(f, 2, 2);
    let f1 = ranks_with(f, 1, 2);
    if f4.len() > 0 {
        assert(f2.len() > 0 ==> 2 <= f2[0] <= 14);
        assert(f1.len() > 0 ==> 2 <= f1[0] <= 14);
        assert(f3.len() > 0 ==> 2 <= f3[0] <= 14);
    } else if f3.len() > 0 && (f3.len() > 1 || f2.len() > 0) {
        assert(f2.len() > 0 ==> 2 <= f2[0] <= 14);
        assert(f3.len() > 1 ==> 2 <= f3[1] <= 14);
    }
}

/// A wheel among five cards is never better than the seven-card reading.
proof fn lemma_upper_wheel(f: Seq<u8>, g: Seq<u8>)
    requires
        pair_setting(f, g),
        wheel_in(g),
    ensures
        code_of(4, 5, 0, 0, 0, 0) <= read_seven(f),
{
    lemma_read_kickers(f);
    lemma_pair_facts(f, g);
    lemma_table_setting(f, 7);
    let f4 = ranks_with(f, 4, 2);
    let f3 = ranks_with(f, 3, 2);
    let f2 = ranks_with(f, 2, 2);
    let f1 = ranks_with(f, 1, 2);
    if f4.len() > 0 {
        assert(f2.len() > 0 ==> 2 <= f2[0] <= 14);
        assert(f1.len() > 0 ==> 2 <= f1[0] <= 14);
        assert(f3.len() > 0 ==> 2 <= f3[0] <= 14);
    } else if f3.len() > 0 && (f3.len() > 1 || f2.len() > 0) {
        assert(f2.len() > 0 ==> 2 <= f2[0] <= 14);
        assert(f3.len() > 1 ==> 2 <= f3[1] <= 14);
    }
}

/// Every argument the seven-card reading may use lies in 2..=14 where it is read.
proof fn lemma_read_args(f: Seq<u8>)
    requires
        card_table(f, 7),
    ensures
        forall|c: int, i: int|
            1 <= c <= 4 && 0 <= i < ranks_with(f, c, 2).len() ==> 2 <= #[trigger] ranks_with(f, c, 2)[i]
                <= 14,
        read_seven(f) >= code_of(1, 0, 0, 0, 0, 0) || (ranks_with(f, 4, 2).len() == 0
            && ranks_with(f, 3, 2).len() == 0 && ranks_with(f, 2, 2).len() == 0),
{
    lemma_read_kickers(f);
    lemma_table_setting(f, 7);
    lemma_straight_top_bound(f, 14);
}

/// Three of a kind among five cards is never better than the seven-card reading.
proof fn lemma_upper_trips(f: Seq<u8>, g: Seq<u8>)
    requires
        pair_setting(f, g),
        ranks_with(g, 4, 2).len() == 0,
        ranks_with(g, 3, 2).len() > 0,
        ranks_with(g, 2, 2).len() == 0,
    ensures
        code_of(3, ranks_with(g, 3, 2)[0] as int, vat(ranks_with(g, 1, 2), 0), vat(ranks_with(g, 1, 2), 1), 0, 0)
            <= read_seven(f),
{
    lemma_read_kickers(f);
    lemma_pair_facts(f, g);
    lemma_table_setting(f, 7);
    lemma_table_setting(g, 5);
    lemma_read_args(f);
    let f4 = ranks_with(f, 4, 2);
    let f3 = ranks_with(f, 3, 2);
    let f2 = ranks_with(f, 2, 2);
    let f1 = ranks_with(f, 1, 2);
    let g3 = ranks_with(g, 3, 2);
    let g1 = ranks_with(g, 1, 2);
    let t = g3[0];
    assert(g1.len() == 2);
    lemma_in_bucket(f, 7, t as int);
    if f4.len() == 0 && !(f3.len() > 0 && (f3.len() > 1 || f2.len() > 0)) && straight_top(f, 14)
        == 0 && !wheel_in(f) {
        assert(f[t as int] == 3);
        assert(f3.len() == 1 && f2.len() == 0);
        assert(f3[0] == t);
        assert forall|i: int| 0 <= i < g1.len() implies f1.contains(#[trigger] g1[i]) by {
            let y = g1[i];
            assert(g[y as int] == 1);
            assert(y != t);
            lemma_in_bucket(f, 7, y as int);
            if f[y as int] == 3 {
                assert(f3.contains(y));
                assert(f3[0] == y);
            }
        }
        assert forall|i: int, j: int| 0 <= i < j < f1.len() implies #[trigger] f1[i] > #[trigger] f1[j] by {}
        assert forall|i: int, j: int| 0 <= i < j < g1.len() implies #[trigger] g1[i] > #[trigger] g1[j] by {}
        lemma_prefix_bound(f1, g1);
    }
}

/// Two pair among five cards is never better than the seven-card reading.
proof fn lemma_upper_two_pair(f: Seq<u8>, g: Seq<u8>)
    requires
        pair_setting(f, g),
        ranks_with(g, 4, 2).len() == 0,
        ranks_with(g, 3, 2).len() == 0,
        ranks_with(g, 2, 2).len() == 2,
    ensures
        code_of(2, ranks_with(g, 2, 2)[0] as int, ranks_with(g, 2, 2)[1] as int, vat(ranks_with(g, 1, 2), 0), 0, 0)
            <= read_seven(f),
{
    lemma_read_kickers(f);
    lemma_pair_facts(f, g);
    lemma_table_setting(f, 7);
    lemma_table_setting(g, 5);
    lemma_read_args(f);
    let f4 = ranks_with(f, 4, 2);
    let f3 = ranks_with(f, 3, 2);
    let f2 = ranks_with(f, 2, 2);
    let f1 = ranks_with(f, 1, 2);
    let g2 = ranks_with(g, 2, 2);
    let g1 = ranks_with(g, 1, 2);
    let p0 = g2[0];
    let p1 = g2[1];
    assert(g1.len() == 1);
    let y = g1[0];
    assert(g[p0 as int] == 2 && g[p1 as int] == 2 && g[y as int] == 1);
    lemma_in_bucket(f, 7, p0 as int);
    lemma_in_bucket(f, 7, p1 as int);
    lemma_in_bucket(f, 7, y as int);
    if f4.len() == 0 && !(f3.len() > 0 && (f3.len() > 1 || f2.len() > 0)) && straight_top(f, 14)
        == 0 && !wheel_in(f) {
        if f3.len() > 0 {
            assert(f2.len() == 0);
            assert(f[p0 as int] == 3 && f[p1 as int] == 3);
            assert(f3.len() == 1);
            assert(f3[0] == p0 && f3[0] == p1);
        }
        assert(f[p0 as int] == 2 && f[p1 as int] == 2);
        let two = seq![p0, p1];
        assert forall|i: int| 0 <= i < two.len() implies f2.contains(#[trigger] two[i]) by {}
        assert forall|i: int, j: int| 0 <= i < j < f2.len() implies #[trigger] f2[i] > #[trigger] f2[j] by {}
        lemma_prefix_bound(f2, two);
        assert(f2.len() >= 2);
        let k = high_except(f, f2[0] as int, f2[1] as int, 14);
        lemma_high_except(f, f2[0] as int, f2[1] as int, 14);
        if p0 == f2[0] && p1 == f2[1] {
            assert(y <= k);
        }
        lemma_code_order(2, p0 as int, p1 as int, y as int, 0, 0, 2, f2[0] as int, f2[1] as int, k, 0, 0);
    }
}

/// A pair among five cards is never better than the seven-card reading.
proof fn lemma_upper_pair(f: Seq<u8>, g: Seq<u8>)
    requires
        pair_setting(f, g),
        ranks_with(g, 4, 2).len() == 0,
        ranks_with(g, 3, 2).len() == 0,
        ranks_with(g, 2, 2).len() == 1,
    ensures
        code_of(1, ranks_with(g, 2, 2)[0] as int, vat(ranks_with(g, 1, 2), 0), vat(ranks_with(g, 1, 2), 1),
            vat(ranks_with(g, 1, 2), 2), 0) <= read_seven(f),
{
    lemma_read_kickers(f);
    lemma_pair_facts(f, g);
    lemma_table_setting(f, 7);
    lemma_table_setting(g, 5);
    lemma_read_args(f);
    let f4 = ranks_with(f, 4, 2);
    let f3 = ranks_with(f, 3, 2);
    let f2 = ranks_with(f, 2, 2);
    let f1 = ranks_with(f, 1, 2);
    let g2 = ranks_with(g, 2, 2);
    let g1 = ranks_with(g, 1, 2);
    let p0 = g2[0];
    assert(g1.len() == 3);
    lemma_in_bucket(f, 7, p0 as int);
    if f4.len() == 0 && f3.len() == 0 && f2.len() <= 1 {
        assert(f[p0 as int] == 2);
        assert(f2.len() == 1 && f2[0] == p0);
        assert forall|i: int| 0 <= i < g1.len() implies f1.contains(#[trigger] g1[i]) by {
            let y = g1[i];
            assert(g[y as int] == 1);
            lemma_in_bucket(f, 7, y as int);
            if f[y as int] == 2 {
                assert(f2[0] == y);
            }
        }
        assert forall|i: int, j: int| 0 <= i < j < f1.len() implies #[trigger] f1[i] > #[trigger] f1[j] by {}
        assert forall|i: int, j: int| 0 <= i < j < g1.len() implies #[trigger] g1[i] > #[trigger] g1[j] by {}
        lemma_prefix_bound(f1, g1);
    }
}

/// High card among five cards is never better than the seven-card reading.
proof fn lemma_upper_high(f: Seq<u8>, g: Seq<u8>)
    requires
        pair_setting(f, g),
        ranks_with(g, 4, 2).len() == 0,
        ranks_with(g, 3, 2).len() == 0,
        ranks_with(g, 2, 2).len() == 0,
    ensures
        code_of(0, vat(ranks_with(g, 1, 2), 0), vat(ranks_with(g, 1, 2), 1), vat(ranks_with(g, 1, 2), 2),
            vat(ranks_with(g, 1, 2), 3), vat(ranks_with(g, 1, 2), 4)) <= read_seven(f),
{
    lemma_read_kickers(f);
    lemma_pair_facts(f, g);
    lemma_table_setting(f, 7);
    lemma_table_setting(g, 5);
    lemma_read_args(f);
    let f4 = ranks_with(f, 4, 2);
    let f3 = ranks_with(f, 3, 2);
    let f2 = ranks_with(f, 2, 2);
    let f1 = ranks_with(f, 1, 2);
    let g1 = ranks_with(g, 1, 2);
    assert(g1.len() == 5);
    if f4.len() == 0 && f3.len() == 0 && f2.len() == 0 {
        assert forall|i: int| 0 <= i < g1.len() implies f1.contains(#[trigger] g1[i]) by {
            let y = g1[i];
            assert(g[y as int] == 1);
            lemma_in_bucket(f, 7, y as int);
        }
        assert forall|i: int, j: int| 0 <= i < j < f1.len() implies #[trigger] f1[i] > #[trigger] f1[j] by {}
        assert forall|i: int, j: int| 0 <= i < j < g1.len() implies #[trigger] g1[i] > #[trigger] g1[j] by {}
        lemma_prefix_bound(f1, g1);
    }
}

/// No five of the seven cards, read without a flush, beat the seven-card reading.
proof fn lemma_upper(f: Seq<u8>, g: Seq<u8>)
    requires
        pair_setting(f, g),
    ensures
        nonflush5(g) <= non_flush_code(f),
{
    lemma_pair_facts(f, g);
    lemma_table_setting(g, 5);
    let g4 = ranks_with(g, 4, 2);
    let g3 = ranks_with(g, 3, 2);
    let g2 = ranks_with(g, 2, 2);
    assert(g4.len() > 0 <==> last_or_zero(g4) > 0);
    assert(g3.len() > 0 <==> last_or_zero(g3) > 0);
    assert(g3.len() > 0 ==> last_or_zero(g3) == g3[0]);
    if last_or_zero(g4) > 0 {
        lemma_upper_quads(f, g);
    } else if last_or_zero(g3) > 0 && g2.len() > 0 {
        lemma_upper_full(f, g);
    } else if straight_top(g, 14) > 0 {
        lemma_upper_straight(f, g);
    } else if wheel_in(g) {
        lemma_upper_wheel(f, g);
    } else if last_or_zero(g3) > 0 {
        lemma_upper_trips(f, g);
    } else if g2.len() == 2 {
        lemma_upper_two_pair(f, g);
    } else if g2.len() == 1 {
        lemma_upper_pair(f, g);
    } else {
        lemma_upper_high(f, g);
    }
}

/// One when the value is `r`, else zero.
spec fn hit(x: u8, r: int) -> int {
    if x == r {
        1
    } else {
        0
    }
}

/// The count of `r` among seven values, term by term.
proof fn lemma_count_seven(v: Seq<u8>, r: int)
    requires
        v.len() == 7,
    ensures
        count_of(v, r) == hit(v[0], r) + hit(v[1], r) + hit(v[2], r) + hit(v[3], r) + hit(v[4], r)
            + hit(v[5], r) + hit(v[6], r),
{
    let v6 = v.drop_last();
    let v5 = v6.drop_last();
    let v4 = v5.drop_last();
    let v3 = v4.drop_last();
    let v2 = v3.drop_last();
    let v1 = v2.drop_last();
    let v0 = v1.drop_last();
    assert(v0.len() == 0);
    assert(count_of(v0, r) == 0);
    assert(v1.last() == v[0]);
    assert(count_of(v1, r) == hit(v[0], r));
    assert(count_of(v2, r) == count_of(v1, r) + hit(v[1], r));
    assert(count_of(v3, r) == count_of(v2, r) + hit(v[2], r));
    assert(count_of(v4, r) == count_of(v3, r) + hit(v[3], r));
    assert(count_of(v5, r) == count_of(v4, r) + hit(v[4], r));
    assert(count_of(v6, r) == count_of(v5, r) + hit(v[5], r));
}

/// The count of `r` among five values, term by term.
proof fn lemma_count_five(v: Seq<u8>, r: int)
    requires
        v.len() == 5,
    ensures
        count_of(v, r) == hit(v[0], r) + hit(v[1], r) + hit(v[2], r) + hit(v[3], r) + hit(v[4], r),
{
    let v4 = v.drop_last();
    let v3 = v4.drop_last();
    let v2 = v3.drop_last();
    let v1 = v2.drop_last();
    let v0 = v1.drop_last();
    assert(v0.len() == 0);
    assert(count_of(v0, r) == 0);
    assert(v1.last() == v[0]);
    assert(count_of(v1, r) == hit(v[0], r));
    assert(count_of(v2, r) == count_of(v1, r) + hit(v[1], r));
    assert(count_of(v3, r) == count_of(v2, r) + hit(v[2], r));
    assert(count_of(v4, r) == count_of(v3, r) + hit(v[3], r));
}

/// One when the card has the suit at position `x`, else zero.
spec fn suit_hit(c: Card, x: int) -> int {
    if c.suit.index() == x {
        1
    } else {
        0
    }
}

/// The count of one suit among seven cards, term by term.
proof fn lemma_suit_seven(c: Seq<Card>, x: int)
    requires
        c.len() == 7,
    ensures
        suit_count(c, x) == suit_hit(c[0], x) + suit_hit(c[1], x) + suit_hit(c[2], x) + suit_hit(
            c[3],
            x,
        ) + suit_hit(c[4], x) + suit_hit(c[5], x) + suit_hit(c[6], x),
{
    let c6 = c.drop_last();
    let c5 = c6.drop_last();
    let c4 = c5.drop_last();
    let c3 = c4.drop_last();
    let c2 = c3.drop_last();
    let c1 = c2.drop_last();
    let c0 = c1.drop_last();
    assert(c0.len() == 0);
    assert(suit_count(c0, x) == 0);
    assert(c1.last() == c[0]);
    assert(suit_count(c1, x) == suit_hit(c[0], x));
    assert(suit_count(c2, x) == suit_count(c1, x) + suit_hit(c[1], x));
    assert(suit_count(c3, x) == suit_count(c2, x) + suit_hit(c[2], x));
    assert(suit_count(c4, x) == suit_count(c3, x) + suit_hit(c[3], x));
    assert(suit_count(c5, x) == suit_count(c4, x) + suit_hit(c[4], x));
    assert(suit_count(c6, x) == suit_count(c5, x) + suit_hit(c[5], x));
}

/// The count table of seven distinct cards.
proof fn lemma_seven_table(s: Seq<Card>)
    requires
        s.len() == 7,
        s.no_duplicates(),
    ensures
        card_table(freq_of(rank_values(s)), 7),
{
    let v = rank_values(s);
    assert forall|i: int| 0 <= i < v.len() implies 2 <= #[trigger] v[i] <= 14 by {
        assert(v[i] == s[i].rank.value() as u8);
    }
    super::score::lemma_fsum_freq(v, 2);
    assert forall|r: int| 2 <= r <= 14 implies #[trigger] freq_of(v)[r] <= 4 by {
        super::deal::lemma_rank_at_most_four(s, r);
    }
}

/// Five of seven distinct cards: their count table is that of five cards and counts no rank
/// more often than the seven do.
proof fn lemma_subset_table(s: Seq<Card>, j0: int, j1: int, j2: int, j3: int, j4: int)
    requires
        s.len() == 7,
        s.no_duplicates(),
        combo5(j0, j1, j2, j3, j4),
    ensures
        pair_setting(freq_of(rank_values(s)), freq_of(rank_values(pick5(s, j0, j1, j2, j3, j4)))),
{
    let p = pick5(s, j0, j1, j2, j3, j4);
    let v = rank_values(s);
    let w = rank_values(p);
    lemma_seven_table(s);
    super::agree_buckets::lemma_pick5_distinct(s, j0, j1, j2, j3, j4);
    assert forall|i: int| 0 <= i < w.len() implies 2 <= #[trigger] w[i] <= 14 by {
        assert(w[i] == p[i].rank.value() as u8);
    }
    super::score::lemma_fsum_freq(w, 2);
    assert forall|r: int| 2 <= r <= 14 implies #[trigger] freq_of(w)[r] <= 4 by {
        super::deal::lemma_rank_at_most_four(p, r);
    }
    assert forall|r: int| 2 <= r <= 14 implies #[trigger] freq_of(w)[r] <= freq_of(v)[r] by {
        lemma_count_seven(v, r);
        lemma_count_five(w, r);
        assert(w[0] == v[j0] && w[1] == v[j1] && w[2] == v[j2] && w[3] == v[j3] && w[4] == v[j4]);
        assert(j0 <= 2 && j1 <= 3 && j2 <= 4 && j3 <= 5);
        super::model::lemma_count_le_len(v, r);
        super::model::lemma_count_le_len(w, r);
    }
}

/// Without a suit of five among the seven cards, no five of them are all of one suit.
proof fn lemma_subset_not_flush(s: Seq<Card>, j0: int, j1: int, j2: int, j3: int, j4: int)
    requires
        s.len() == 7,
        combo5(j0, j1, j2, j3, j4),
        flush_suit(suit_counts(s)) == 4,
    ensures
        !flush5(pick5(s, j0, j1, j2, j3, j4)),
{
    let p = pick5(s, j0, j1, j2, j3, j4);
    if flush5(p) {
        let x = p[0].suit.index();
        lemma_suit_seven(s, x);
        assert(j0 <= 2 && j1 <= 3 && j2 <= 4 && j3 <= 5);
        assert(suit_count(s, x) >= 5);
        super::model::lemma_suit_count_le_len(s, x);
        assert(suit_counts(s)[x] == suit_count(s, x) as u8);
        assert(0 <= x < 4);
    }
}

/// Two strictly decreasing rank lists with the same members are equal.
proof fn lemma_desc_same(a: Seq<u8>, b: Seq<u8>)
    requires
        forall|i: int, j: int| 0 <= i < j < a.len() ==> #[trigger] a[i] > #[trigger] a[j],
        forall|i: int, j: int| 0 <= i < j < b.len() ==> #[trigger] b[i] > #[trigger] b[j],
        forall|x: u8| a.contains(x) <==> b.contains(x),
    ensures
        a == b,
    decreases a.len(),
{
    if a.len() == 0 {
        if b.len() > 0 {
            assert(b.contains(b[0]));
        }
        assert(a =~= b);
    } else {
        assert(a.contains(a[0]));
        let k = choose|k: int| 0 <= k < b.len() && b[k] == a[0];
        assert(b.contains(b[0]));
        let m = choose|m: int| 0 <= m < a.len() && a[m] == b[0];
        if k > 0 {
            assert(b[0] > b[k]);
            if m > 0 {
                assert(a[0] > a[m]);
            }
        }
        assert(a[0] == b[0]);
        let a1 = a.drop_first();
        let b1 = b.drop_first();
        assert forall|x: u8| a1.contains(x) <==> b1.contains(x) by {
            if a1.contains(x) {
                let i = choose|i: int| 0 <= i < a1.len() && a1[i] == x;
                assert(a[i + 1] == x);
                assert(a[0] > a[i + 1]);
                assert(a.contains(x));
                let j = choose|j: int| 0 <= j < b.len() && b[j] == x;
                assert(j != 0);
                assert(b1[j - 1] == x);
            }
            if b1.contains(x) {
                let i = choose|i: int| 0 <= i < b1.len() && b1[i] == x;
                assert(b[i + 1] == x);
                assert(b[0] > b[i + 1]);
                assert(b.contains(x));
                let j = choose|j: int| 0 <= j < a.len() && a[j] == x;
                assert(j != 0);
                assert(a1[j - 1] == x);
            }
        }
        assert forall|i: int, j: int| 0 <= i < j < a1.len() implies #[trigger] a1[i] > #[trigger] a1[j] by {
            assert(a[i + 1] > a[j + 1]);
        }
        assert forall|i: int, j: int| 0 <= i < j < b1.len() implies #[trigger] b1[i] > #[trigger] b1[j] by {
            assert(b[i + 1] > b[j + 1]);
        }
        lemma_desc_same(a1, b1);
        assert(a =~= b) by {
            assert forall|i: int| 0 <= i < a.len() implies a[i] == b[i] by {
                if i > 0 {
                    assert(a[i] == a1[i - 1] && b[i] == b1[i - 1]);
                }
            }
        }
    }
}

/// The ranks of one count in a table are a given strictly decreasing list when the list
/// holds exactly the ranks of that count.
proof fn lemma_ranks_exact(g: Seq<u8>, c: int, e: Seq<u8>)
    requires
        g.len() == 15,
        1 <= c,
        forall|i: int, j: int| 0 <= i < j < e.len() ==> #[trigger] e[i] > #[trigger] e[j],
        forall|i: int| 0 <= i < e.len() ==> 2 <= #[trigger] e[i] <= 14,
        forall|r: int| 2 <= r <= 14 ==> (#[trigger] g[r] == c <==> e.contains(r as u8)),
    ensures
        ranks_with(g, c, 2) == e,
{
    let rw = ranks_with(g, c, 2);
    lemma_ranks_with(g, c, 2);
    assert forall|x: u8| rw.contains(x) <==> e.contains(x) by {
        lemma_ranks_with_contains(g, c, 2, x);
        if e.contains(x) {
            let i = choose|i: int| 0 <= i < e.len() && e[i] == x;
            assert(2 <= e[i] <= 14);
            assert(g[x as int] == c);
        }
    }
    lemma_desc_same(rw, e);
}

/// The entries of `v` at the positions `p`.
spec fn at_positions<T>(v: Seq<T>, p: Seq<int>) -> Seq<T> {
    p.map_values(|k: int| v[k])
}

/// Positions from `i` on, chosen in order, whose entries make up the multiset `h`: an entry is
/// taken whenever `h` still wants it.
spec fn pick_from<T>(v: Seq<T>, h: Multiset<T>, i: int) -> Seq<int>
    decreases v.len() - i,
{
    if i < 0 || i >= v.len() {
        Seq::empty()
    } else if h.count(v[i]) > 0 {
        seq![i] + pick_from(v, h.remove(v[i]), i + 1)
    } else {
        pick_from(v, h, i + 1)
    }
}

/// A multiset held by the entries of `v` from `i` on is the multiset of the entries at the
/// positions chosen, which rise strictly and lie from `i` on.
proof fn lemma_pick_from<T>(v: Seq<T>, h: Multiset<T>, i: int)
    requires
        0 <= i <= v.len(),
        h.subset_of(v.subrange(i, v.len() as int).to_multiset()),
    ensures
        at_positions(v, pick_from(v, h, i)).to_multiset() == h,
        pick_from(v, h, i).len() == h.len(),
        forall|a: int| 0 <= a < pick_from(v, h, i).len() ==> i <= #[trigger] pick_from(v, h, i)[a] < v.len(),
        forall|a: int, b: int|
            0 <= a < b < pick_from(v, h, i).len() ==> #[trigger] pick_from(v, h, i)[a] < #[trigger] pick_from(
                v,
                h,
                i,
            )[b],
    decreases v.len() - i,
{
    broadcast use vstd::multiset::group_multiset_axioms;
    broadcast use vstd::seq_lib::group_to_multiset_ensures;

    let n = v.len() as int;
    let p = pick_from(v, h, i);
    if i == n {
        assert(v.subrange(i, n) =~= Seq::<T>::empty());
        assert(h =~= Multiset::<T>::empty()) by {
            assert forall|x: T| h.count(x) == 0 by {
                assert(h.count(x) <= v.subrange(i, n).to_multiset().count(x));
            }
        }
        assert(at_positions(v, p) =~= Seq::<T>::empty());
    } else {
        let x = v[i];
        let sub = v.subrange(i, n);
        let rest = v.subrange(i + 1, n);
        assert(sub.remove(0) =~= rest);
        assert(rest.to_multiset() =~= sub.to_multiset().remove(x));
        if h.count(x) > 0 {
            let h1 = h.remove(x);
            assert(h1.subset_of(rest.to_multiset())) by {
                assert forall|y: T| h1.count(y) <= rest.to_multiset().count(y) by {
                    assert(h.count(y) <= sub.to_multiset().count(y));
                }
            }
            lemma_pick_from(v, h1, i + 1);
            let p1 = pick_from(v, h1, i + 1);
            assert(p == seq![i] + p1);
            assert(at_positions(v, p) =~= at_positions(v, p1).insert(0, x));
            assert(h1.insert(x) =~= h);
            assert forall|a: int, b: int| 0 <= a < b < p.len() implies #[trigger] p[a] < #[trigger] p[b] by {
                if a > 0 {
                    assert(p[a] == p1[a - 1] && p[b] == p1[b - 1]);
                } else {
                    assert(p[b] == p1[b - 1]);
                }
            }
            assert forall|a: int| 0 <= a < p.len() implies i <= #[trigger] p[a] < v.len() by {
                if a > 0 {
                    assert(p[a] == p1[a - 1]);
                }
            }
            assert(at_positions(v, p).len() == p.len());
        } else {
            assert(h.subset_of(rest.to_multiset())) by {
                assert forall|y: T| h.count(y) <= rest.to_multiset().count(y) by {
                    assert(h.count(y) <= sub.to_multiset().count(y));
                }
            }
            lemma_pick_from(v, h, i + 1);
        }
    }
}

/// Five ranks of the seven cards that score what the seven-card reading says: the groups it
/// reads with the ranks it reads beside them, or the run it reads.
spec fn witness_ranks(f: Seq<u8>) -> Seq<u8> {
    let f4 = ranks_with(f, 4, 2);
    let f3 = ranks_with(f, 3, 2);
    let f2 = ranks_with(f, 2, 2);
    let f1 = ranks_with(f, 1, 2);
    let top = straight_top(f, 14);
    if f4.len() > 0 {
        let q = f4[0];
        let a = high_except(f, q as int, 0, 14) as u8;
        seq![q, q, q, q, a]
    } else if f3.len() > 0 && (f3.len() > 1 || f2.len() > 0) {
        let t = f3[0];
        let b = if f3.len() > 1 {
            f3[1]
        } else {
            f2[0]
        };
        seq![t, t, t, b, b]
    } else if top > 0 {
        seq![top as u8, (top - 1) as u8, (top - 2) as u8, (top - 3) as u8, (top - 4) as u8]
    } else if wheel_in(f) {
        seq![14u8, 5u8, 4u8, 3u8, 2u8]
    } else if f3.len() > 0 {
        seq![f3[0], f3[0], f3[0], f1[0], f1[1]]
    } else if f2.len() > 1 {
        let k = high_except(f, f2[0] as int, f2[1] as int, 14) as u8;
        seq![f2[0], f2[0], f2[1], f2[1], k]
    } else if f2.len() > 0 {
        seq![f2[0], f2[0], f1[0], f1[1], f1[2]]
    } else {
        seq![f1[0], f1[1], f1[2], f1[3], f1[4]]
    }
}

/// The count table of five ranks, entry by entry.
proof fn lemma_freq_five(w: Seq<u8>)
    requires
        w.len() == 5,
    ensures
        freq_of(w).len() == 15,
        forall|r: int|
            0 <= r < 15 ==> #[trigger] freq_of(w)[r] == hit(w[0], r) + hit(w[1], r) + hit(w[2], r)
                + hit(w[3], r) + hit(w[4], r),
{
    assert forall|r: int| 0 <= r < 15 implies #[trigger] freq_of(w)[r] == hit(w[0], r) + hit(w[1], r)
        + hit(w[2], r) + hit(w[3], r) + hit(w[4], r) by {
        lemma_count_five(w, r);
    }
}

/// The witness ranks when the seven cards hold four of a kind or a full house.
proof fn lemma_witness_groups(f: Seq<u8>)
    requires
        card_table(f, 7),
        ranks_with(f, 4, 2).len() > 0 || (ranks_with(f, 3, 2).len() > 0 && (ranks_with(f, 3, 2).len()
            > 1 || ranks_with(f, 2, 2).len() > 0)),
    ensures
        below(freq_of(witness_ranks(f)), f),
        nonflush5(freq_of(witness_ranks(f))) == read_seven(f),
        forall|i: int| 0 <= i < 5 ==> 2 <= #[trigger] witness_ranks(f)[i] <= 14,
{
    lemma_table_setting(f, 7);
    let f4 = ranks_with(f, 4, 2);
    let f3 = ranks_with(f, 3, 2);
    let f2 = ranks_with(f, 2, 2);
    let f1 = ranks_with(f, 1, 2);
    let w = witness_ranks(f);
    let g = freq_of(w);
    lemma_freq_five(w);
    if f4.len() > 0 {
        let q = f4[0];
        let a = w[4];
        assert(f[q as int] == 4);
        lemma_high_except(f, q as int, 0, 14);
        let other = if f3.len() > 0 {
            f3[0]
        } else if f2.len() > 0 {
            f2[0]
        } else {
            f1[0]
        };
        assert(f[other as int] >= 1 && other != q);
        assert(a as int == high_except(f, q as int, 0, 14));
        assert(f[a as int] >= 1);
        assert(a != q);
        assert(f[a as int] < 4) by {
            if f[a as int] == 4 {
                lemma_ranks_with_contains(f, 4, 2, a);
                let i = choose|i: int| 0 <= i < f4.len() && f4[i] == a;
            }
        }
        assert(w[0] == q && w[1] == q && w[2] == q && w[3] == q);
        assert forall|r: int| 2 <= r <= 14 implies (#[trigger] g[r] == 4 <==> seq![q].contains(r as u8)) by {
            if g[r] == 4 {
                assert(seq![q][0] == r as u8);
            }
        }
        assert forall|r: int| 2 <= r <= 14 implies (#[trigger] g[r] == 1 <==> seq![a].contains(r as u8)) by {
            if g[r] == 1 {
                assert(seq![a][0] == r as u8);
            }
        }
        lemma_ranks_exact(g, 4, seq![q]);
        lemma_ranks_exact(g, 3, Seq::empty());
        lemma_ranks_exact(g, 2, Seq::empty());
        lemma_ranks_exact(g, 1, seq![a]);
    } else {
        let t = f3[0];
        let b = w[3];
        assert(f[t as int] == 3);
        assert(f[b as int] >= 2);
        assert(b != t);
        assert(w[0] == t && w[1] == t && w[2] == t && w[4] == b);
        assert forall|r: int| 2 <= r <= 14 implies (#[trigger] g[r] == 3 <==> seq![t].contains(r as u8)) by {
            if g[r] == 3 {
                assert(seq![t][0] == r as u8);
            }
        }
        assert forall|r: int| 2 <= r <= 14 implies (#[trigger] g[r] == 2 <==> seq![b].contains(r as u8)) by {
            if g[r] == 2 {
                assert(seq![b][0] == r as u8);
            }
        }
        lemma_ranks_exact(g, 4, Seq::empty());
        lemma_ranks_exact(g, 3, seq![t]);
        lemma_ranks_exact(g, 2, seq![b]);
        lemma_ranks_exact(g, 1, Seq::empty());
    }
}

/// The witness ranks when the seven cards make a straight or a wheel at best.
proof fn lemma_witness_runs(f: Seq<u8>)
    requires
        card_table(f, 7),
        ranks_with(f, 4, 2).len() == 0,
        !(ranks_with(f, 3, 2).len() > 0 && (ranks_with(f, 3, 2).len() > 1 || ranks_with(f, 2, 2).len()
            > 0)),
        straight_top(f, 14) > 0 || wheel_in(f),
    ensures
        below(freq_of(witness_ranks(f)), f),
        nonflush5(freq_of(witness_ranks(f))) == read_seven(f),
{
    lemma_table_setting(f, 7);
    lemma_straight_top_bound(f, 14);
    let top = straight_top(f, 14);
    let w = witness_ranks(f);
    let g = freq_of(w);
    lemma_freq_five(w);
    assert forall|i: int, j: int| 0 <= i < j < w.len() implies #[trigger] w[i] > #[trigger] w[j] by {}
    assert forall|r: int| 2 <= r <= 14 implies (#[trigger] g[r] == 1 <==> w.contains(r as u8)) by {
        if g[r] == 1 {
            if w[0] == r {
                assert(w[0] == r as u8);
            } else if w[1] == r {
                assert(w[1] == r as u8);
            } else if w[2] == r {
                assert(w[2] == r as u8);
            } else if w[3] == r {
                assert(w[3] == r as u8);
            } else {
                assert(w[4] == r as u8);
            }
        }
    }
    lemma_ranks_exact(g, 4, Seq::empty());
    lemma_ranks_exact(g, 3, Seq::empty());
    lemma_ranks_exact(g, 2, Seq::empty());
    lemma_ranks_exact(g, 1, w);
    assert(below(g, f));
    if top > 0 {
        assert forall|b: int| top < b <= 14 implies !#[trigger] run_at(g, b) by {
            assert(g[b] == 0);
        }
        super::agree_buckets::lemma_straight_top_is(g, 14, top);
    } else {
        lemma_top_mono(g, f, 14);
        lemma_straight_top_bound(g, 14);
    }
}

/// The witness ranks when the seven cards make three of a kind, two pair, a pair or high card
/// at best.
proof fn lemma_witness_low(f: Seq<u8>)
    requires
        card_table(f, 7),
        ranks_with(f, 4, 2).len() == 0,
        !(ranks_with(f, 3, 2).len() > 0 && (ranks_with(f, 3, 2).len() > 1 || ranks_with(f, 2, 2).len()
            > 0)),
        straight_top(f, 14) == 0,
        !wheel_in(f),
    ensures
        below(freq_of(witness_ranks(f)), f),
        nonflush5(freq_of(witness_ranks(f))) == read_seven(f),
        forall|i: int| 0 <= i < 5 ==> 2 <= #[trigger] witness_ranks(f)[i] <= 14,
{
    lemma_table_setting(f, 7);
    let f3 = ranks_with(f, 3, 2);
    let f2 = ranks_with(f, 2, 2);
    let f1 = ranks_with(f, 1, 2);
    let w = witness_ranks(f);
    let g = freq_of(w);
    lemma_freq_five(w);
    if f3.len() > 0 {
        let t = f3[0];
        assert(f2.len() == 0 && f1.len() == 4);
        let e = seq![f1[0], f1[1]];
        assert(f[t as int] == 3 && f[f1[0] as int] == 1 && f[f1[1] as int] == 1);
        assert forall|r: int| 2 <= r <= 14 implies (#[trigger] g[r] == 3 <==> seq![t].contains(r as u8)) by {
            if g[r] == 3 {
                assert(seq![t][0] == r as u8);
            }
        }
        assert forall|r: int| 2 <= r <= 14 implies (#[trigger] g[r] == 1 <==> e.contains(r as u8)) by {
            if g[r] == 1 {
                if f1[0] == r {
                    assert(e[0] == r as u8);
                } else {
                    assert(e[1] == r as u8);
                }
            }
        }
        assert forall|i: int, j: int| 0 <= i < j < e.len() implies #[trigger] e[i] > #[trigger] e[j] by {}
        lemma_ranks_exact(g, 4, Seq::empty());
        lemma_ranks_exact(g, 3, seq![t]);
        lemma_ranks_exact(g, 2, Seq::empty());
        lemma_ranks_exact(g, 1, e);
    } else if f2.len() > 1 {
        let p0 = f2[0];
        let p1 = f2[1];
        let k = w[4];
        let e = seq![p0, p1];
        lemma_high_except(f, p0 as int, p1 as int, 14);
        let other = if f2.len() > 2 {
            f2[2]
        } else {
            f1[0]
        };
        assert(f[other as int] >= 1 && other != p0 && other != p1) by {
            if f2.len() > 2 {
                assert(f2[0] > f2[2] && f2[1] > f2[2]);
            }
        }
        assert(k as int == high_except(f, p0 as int, p1 as int, 14));
        assert(f[p0 as int] == 2 && f[p1 as int] == 2 && f[k as int] >= 1);
        assert(k != p0 && k != p1);
        assert forall|r: int| 2 <= r <= 14 implies (#[trigger] g[r] == 2 <==> e.contains(r as u8)) by {
            if g[r] == 2 {
                if p0 == r {
                    assert(e[0] == r as u8);
                } else {
                    assert(e[1] == r as u8);
                }
            }
        }
        assert forall|r: int| 2 <= r <= 14 implies (#[trigger] g[r] == 1 <==> seq![k].contains(r as u8)) by {
            if g[r] == 1 {
                assert(seq![k][0] == r as u8);
            }
        }
        assert forall|i: int, j: int| 0 <= i < j < e.len() implies #[trigger] e[i] > #[trigger] e[j] by {}
        lemma_ranks_exact(g, 4, Seq::empty());
        lemma_ranks_exact(g, 3, Seq::empty());
        lemma_ranks_exact(g, 2, e);
        lemma_ranks_exact(g, 1, seq![k]);
    } else if f2.len() > 0 {
        let p = f2[0];
        assert(f1.len() == 5);
        let e = seq![f1[0], f1[1], f1[2]];
        assert(f[p as int] == 2 && f[f1[0] as int] == 1 && f[f1[1] as int] == 1 && f[f1[2] as int] == 1);
        assert forall|r: int| 2 <= r <= 14 implies (#[trigger] g[r] == 2 <==> seq![p].contains(r as u8)) by {
            if g[r] == 2 {
                assert(seq![p][0] == r as u8);
            }
        }
        assert forall|r: int| 2 <= r <= 14 implies (#[trigger] g[r] == 1 <==> e.contains(r as u8)) by {
            if g[r] == 1 {
                if f1[0] == r {
                    assert(e[0] == r as u8);
                } else if f1[1] == r {
                    assert(e[1] == r as u8);
                } else {
                    assert(e[2] == r as u8);
                }
            }
        }
        assert forall|i: int, j: int| 0 <= i < j < e.len() implies #[trigger] e[i] > #[trigger] e[j] by {}
        lemma_ranks_exact(g, 4, Seq::empty());
        lemma_ranks_exact(g, 3, Seq::empty());
        lemma_ranks_exact(g, 2, seq![p]);
        lemma_ranks_exact(g, 1, e);
    } else {
        assert(f1.len() == 7);
        assert forall|i: int| 0 <= i < 5 implies f[#[trigger] w[i] as int] == 1 by {}
        assert forall|r: int| 2 <= r <= 14 implies (#[trigger] g[r] == 1 <==> w.contains(r as u8)) by {
            if g[r] == 1 {
                if w[0] == r {
                    assert(w[0] == r as u8);
                } else if w[1] == r {
                    assert(w[1] == r as u8);
                } else if w[2] == r {
                    assert(w[2] == r as u8);
                } else if w[3] == r {
                    assert(w[3] == r as u8);
                } else {
                    assert(w[4] == r as u8);
                }
            }
        }
        assert forall|i: int, j: int| 0 <= i < j < w.len() implies #[trigger] w[i] > #[trigger] w[j] by {}
        lemma_ranks_exact(g, 4, Seq::empty());
        lemma_ranks_exact(g, 3, Seq::empty());
        lemma_ranks_exact(g, 2, Seq::empty());
        lemma_ranks_exact(g, 1, w);
    }
    assert(below(g, f));
    lemma_top_mono(g, f, 14);
    lemma_straight_top_bound(g, 14);
    if wheel_in(g) {
        assert(g[14] <= f[14] && g[5] <= f[5] && g[4] <= f[4] && g[3] <= f[3] && g[2] <= f[2]);
    }
}

/// Five ranks, counted no more often than among the seven cards, that score what the
/// seven-card reading says.
proof fn lemma_witness(f: Seq<u8>)
    requires
        card_table(f, 7),
    ensures
        witness_ranks(f).len() == 5,
        forall|i: int| 0 <= i < 5 ==> 2 <= #[trigger] witness_ranks(f)[i] <= 14,
        below(freq_of(witness_ranks(f)), f),
        nonflush5(freq_of(witness_ranks(f))) == non_flush_code(f),
{
    lemma_read_kickers(f);
    lemma_table_setting(f, 7);
    lemma_read_seven(f);
    lemma_straight_top_bound(f, 14);
    let f4 = ranks_with(f, 4, 2);
    let f3 = ranks_with(f, 3, 2);
    let f2 = ranks_with(f, 2, 2);
    if f4.len() > 0 || (f3.len() > 0 && (f3.len() > 1 || f2.len() > 0)) {
        lemma_witness_groups(f);
    } else if straight_top(f, 14) > 0 || wheel_in(f) {
        lemma_witness_runs(f);
    } else {
        lemma_witness_low(f);
    }
}

/// Five of the seven cards whose ranks are the given five ranks, when no rank among these is
/// wanted more often than the seven cards hold it.
proof fn lemma_choose_five(s: Seq<Card>, w: Seq<u8>) -> (j: (int, int, int, int, int))
    requires
        s.len() == 7,
        w.len() == 5,
        forall|i: int| 0 <= i < 5 ==> 2 <= #[trigger] w[i] <= 14,
        below(freq_of(w), freq_of(rank_values(s))),
    ensures
        combo5(j.0, j.1, j.2, j.3, j.4),
        freq_of(rank_values(pick5(s, j.0, j.1, j.2, j.3, j.4))) == freq_of(w),
{
    broadcast use vstd::seq_lib::group_to_multiset_ensures;

    let v = rank_values(s);
    let h = w.to_multiset();
    assert(v.subrange(0, 7) =~= v);
    assert(h.subset_of(v.to_multiset())) by {
        assert forall|x: u8| h.count(x) <= v.to_multiset().count(x) by {
            lemma_count_of_multiset(w, x);
            lemma_count_of_multiset(v, x);
            lemma_count_five(w, x as int);
            if 2 <= x <= 14 {
                assert(freq_of(w)[x as int] <= freq_of(v)[x as int]);
                super::model::lemma_count_le_len(w, x as int);
                super::model::lemma_count_le_len(v, x as int);
            }
        }
    }
    lemma_pick_from(v, h, 0);
    let p = pick_from(v, h, 0);
    assert(p.len() == 5);
    let j = (p[0], p[1], p[2], p[3], p[4]);
    assert(p[0] < p[1] && p[1] < p[2] && p[2] < p[3] && p[3] < p[4]);
    assert(0 <= p[0] && p[4] < 7);
    let c = pick5(s, j.0, j.1, j.2, j.3, j.4);
    let cv = rank_values(c);
    assert(cv =~= at_positions(v, p));
    assert forall|r: int| 0 <= r < 15 implies #[trigger] freq_of(cv)[r] == freq_of(w)[r] by {
        lemma_count_of_multiset(cv, r as u8);
        lemma_count_of_multiset(w, r as u8);
    }
    assert(freq_of(cv) =~= freq_of(w));
    j
}

/// Seven distinct cards with no suit of five: the direct reading is the best code of five of
/// them, unless a kicker is taken from a group although a higher single card is left.
proof fn lemma_direct_no_flush(s: Seq<Card>)
    requires
        s.len() == 7,
        s.no_duplicates(),
        flush_suit(suit_counts(s)) == 4,
    ensures
        is_best_of_21(s, eval5_fn(), eval7_spec(s)),
{
    let f = freq_of(rank_values(s));
    lemma_seven_table(s);
    assert(eval7_spec(s) == non_flush_code(f));
    assert forall|j0: int, j1: int, j2: int, j3: int, j4: int|
        combo5(j0, j1, j2, j3, j4) implies eval5_fn()(#[trigger] pick5(s, j0, j1, j2, j3, j4))
        <= eval7_spec(s) by {
        let p = pick5(s, j0, j1, j2, j3, j4);
        lemma_subset_table(s, j0, j1, j2, j3, j4);
        lemma_subset_not_flush(s, j0, j1, j2, j3, j4);
        super::agree_buckets::lemma_pick5_distinct(s, j0, j1, j2, j3, j4);
        super::agree_buckets::lemma_buckets_agree(p);
        lemma_buckets_nonflush(p);
        lemma_upper(f, freq_of(rank_values(p)));
    }
    lemma_witness(f);
    let w = witness_ranks(f);
    let j = lemma_choose_five(s, w);
    let p = pick5(s, j.0, j.1, j.2, j.3, j.4);
    lemma_subset_not_flush(s, j.0, j.1, j.2, j.3, j.4);
    super::agree_buckets::lemma_pick5_distinct(s, j.0, j.1, j.2, j.3, j.4);
    super::agree_buckets::lemma_buckets_agree(p);
    lemma_buckets_nonflush(p);
    assert(eval5_fn()(p) == eval7_spec(s));
}

/// Strictly decreasing ranks.
spec fn strictly_down(v: Seq<u8>) -> bool {
    &&& forall|i: int| 0 <= i < v.len() ==> 2 <= #[trigger] v[i] <= 14
    &&& forall|i: int, j: int| 0 <= i < j < v.len() ==> #[trigger] v[i] > #[trigger] v[j]
}

/// The count table of distinct ranks marks each of them once, lists them as its singles, and
/// has no larger group.
proof fn lemma_distinct_table(v: Seq<u8>)
    requires
        strictly_down(v),
    ensures
        freq_of(v).len() == 15,
        forall|r: int| 0 <= r < 15 ==> #[trigger] freq_of(v)[r] == (if v.contains(r as u8) {
            1u8
        } else {
            0u8
        }),
        ranks_with(freq_of(v), 1, 2) == v,
        ranks_with(freq_of(v), 2, 2).len() == 0,
        ranks_with(freq_of(v), 3, 2).len() == 0,
        ranks_with(freq_of(v), 4, 2).len() == 0,
{
    broadcast use vstd::seq_lib::group_to_multiset_ensures;

    let t = freq_of(v);
    assert(v.no_duplicates()) by {
        assert forall|a: int, b: int| 0 <= a < v.len() && 0 <= b < v.len() && a != b implies v[a] != v[b] by {
            if a < b {
                assert(v[a] > v[b]);
            } else {
                assert(v[b] > v[a]);
            }
        }
    }
    v.lemma_multiset_has_no_duplicates();
    assert forall|r: int| 0 <= r < 15 implies #[trigger] t[r] == (if v.contains(r as u8) {
        1u8
    } else {
        0u8
    }) by {
        lemma_count_of_multiset(v, r as u8);
    }
    assert forall|r: int| 2 <= r <= 14 implies (#[trigger] t[r] == 1 <==> v.contains(r as u8)) by {}
    lemma_ranks_exact(t, 1, v);
    lemma_ranks_exact(t, 2, Seq::empty());
    lemma_ranks_exact(t, 3, Seq::empty());
    lemma_ranks_exact(t, 4, Seq::empty());
}

/// Where the first run of `v` from `a` starts, when there is one; there is none exactly when
/// the first run is 0.
proof fn lemma_first_run_index(v: Seq<u8>, a: int) -> (i: int)
    requires
        0 <= a,
    ensures
        first_run(v, a) == 0 ==> forall|k: int| a <= k && k + 5 <= v.len() ==> !#[trigger] run_from(v, k),
        first_run(v, a) > 0 ==> a <= i && i + 5 <= v.len() && run_from(v, i) && first_run(v, a) == v[i]
            && forall|k: int| a <= k < i ==> !#[trigger] run_from(v, k),
    decreases v.len() - a,
{
    if a + 5 > v.len() || run_from(v, a) {
        a
    } else {
        lemma_first_run_index(v, a + 1)
    }
}

/// In strictly decreasing ranks, the rank one below an entry, when present, comes right after
/// it.
proof fn lemma_next_down(v: Seq<u8>, k: int)
    requires
        strictly_down(v),
        0 <= k < v.len(),
        v.contains((v[k] - 1) as u8),
        v[k] >= 3,
    ensures
        k + 1 < v.len(),
        v[k + 1] == v[k] - 1,
{
    let j = choose|j: int| 0 <= j < v.len() && v[j] == (v[k] - 1) as u8;
    if j <= k {
        if j < k {
            assert(v[j] > v[k]);
        }
    }
    assert(j > k);
    if k + 1 < j {
        assert(v[k + 1] > v[j]);
    }
    assert(v[k] > v[k + 1]);
}

/// Strictly decreasing ranks holding a rank of at least Six and the four below it run down by
/// one from that rank's place.
proof fn lemma_run_in(v: Seq<u8>, k: int)
    requires
        strictly_down(v),
        0 <= k < v.len(),
        v[k] >= 6,
        v.contains((v[k] - 1) as u8),
        v.contains((v[k] - 2) as u8),
        v.contains((v[k] - 3) as u8),
        v.contains((v[k] - 4) as u8),
    ensures
        k + 4 < v.len(),
        run_from(v, k),
{
    lemma_next_down(v, k);
    lemma_next_down(v, k + 1);
    lemma_next_down(v, k + 2);
    lemma_next_down(v, k + 3);
}

/// For distinct ranks, the first run of the sorted list is the highest run of their table.
proof fn lemma_first_run_top(v: Seq<u8>)
    requires
        strictly_down(v),
    ensures
        first_run(v, 0) == straight_top(freq_of(v), 14),
{
    let t = freq_of(v);
    lemma_distinct_table(v);
    let i = lemma_first_run_index(v, 0);
    super::score::lemma_first_run_bound(v, 0);
    lemma_straight_top_bound(t, 14);
    if first_run(v, 0) > 0 {
        let h = v[i] as int;
        assert(h >= 6);
        assert(v.contains(v[i]) && v.contains(v[i + 1]) && v.contains(v[i + 2]) && v.contains(v[i + 3])
            && v.contains(v[i + 4]));
        assert(run_at(t, h));
        assert forall|b: int| h < b <= 14 implies !#[trigger] run_at(t, b) by {
            if run_at(t, b) {
                assert(v.contains(b as u8));
                let k = choose|k: int| 0 <= k < v.len() && v[k] == b as u8;
                lemma_run_in(v, k);
                if k >= i {
                    if k > i {
                        assert(v[i] > v[k]);
                    }
                }
            }
        }
        super::agree_buckets::lemma_straight_top_is(t, 14, h);
    } else {
        let top = straight_top(t, 14);
        if top > 0 {
            assert(v.contains(top as u8));
            let k = choose|k: int| 0 <= k < v.len() && v[k] == top as u8;
            lemma_run_in(v, k);
        }
    }
}

/// The code of a flush read from the table of its suit's ranks: royal flush, straight flush,
/// the wheel as a Five-high straight flush, or the five highest ranks.
spec fn flush_read(t: Seq<u8>) -> int {
    let top = straight_top(t, 14);
    let r1 = ranks_with(t, 1, 2);
    if top == 14 {
        code_of(9, 0, 0, 0, 0, 0)
    } else if top > 0 {
        code_of(8, top, 0, 0, 0, 0)
    } else if wheel_in(t) {
        code_of(8, 5, 0, 0, 0, 0)
    } else {
        code_of(5, vat(r1, 0), vat(r1, 1), vat(r1, 2), vat(r1, 3), vat(r1, 4))
    }
}

/// The flush code of five or more distinct ranks is read from their table.
proof fn lemma_flush_code_read(v: Seq<u8>)
    requires
        strictly_down(v),
        v.len() >= 5,
    ensures
        flush_code(v) == flush_read(freq_of(v)),
{
    let t = freq_of(v);
    lemma_distinct_table(v);
    lemma_first_run_top(v);
    assert(v.contains(14u8) == (t[14] > 0));
    assert(v.contains(5u8) == (t[5] > 0));
    assert(v.contains(4u8) == (t[4] > 0));
    assert(v.contains(3u8) == (t[3] > 0));
    assert(v.contains(2u8) == (t[2] > 0));
    let r1 = ranks_with(t, 1, 2);
    assert(vat(r1, 0) == v[0] && vat(r1, 1) == v[1] && vat(r1, 2) == v[2] && vat(r1, 3) == v[3]
        && vat(r1, 4) == v[4]);
    let sf = first_run(v, 0);
    let wh = sf == 0 && v.contains(14u8) && v.contains(5u8) && v.contains(4u8) && v.contains(3u8)
        && v.contains(2u8);
    lemma_straight_top_bound(t, 14);
    assert(wh == (straight_top(t, 14) == 0 && wheel_in(t)));
}

/// A table with no entry above one lists as present exactly its singles.
proof fn lemma_present_singles(g: Seq<u8>, lo: int)
    requires
        g.len() == 15,
        2 <= lo <= 15,
        forall|r: int| 2 <= r <= 14 ==> #[trigger] g[r] <= 1,
    ensures
        ranks_present(g, lo) == ranks_with(g, 1, lo),
    decreases 15 - lo,
{
    if lo <= 14 {
        lemma_present_singles(g, lo + 1);
    }
}

/// Five distinct cards of one suit: no rank twice, and the bucket evaluator's code is the
/// flush code read from their table.
proof fn lemma_flush_five(p: Seq<Card>)
    requires
        p.len() == 5,
        p.no_duplicates(),
        flush5(p),
    ensures
        forall|r: int| 0 <= r < 15 ==> #[trigger] freq_of(rank_values(p))[r] <= 1,
        eval5_buckets_spec(p) == flush_read(freq_of(rank_values(p))),
{
    let v = rank_values(p);
    let g = freq_of(v);
    assert forall|a: int, b: int| 0 <= a < b < 5 implies #[trigger] v[a] != #[trigger] v[b] by {
        if v[a] == v[b] {
            super::agree::lemma_same_card(p[a], p[b]);
        }
    }
    assert forall|r: int| 0 <= r < 15 implies #[trigger] g[r] <= 1 by {
        lemma_count_five(v, r);
    }
    lemma_present_singles(g, 2);
    lemma_ranks_with(g, 4, 2);
    lemma_ranks_with(g, 3, 2);
    lemma_ranks_with(g, 2, 2);
    assert(ranks_with(g, 4, 2).len() == 0) by {
        if ranks_with(g, 4, 2).len() > 0 {
            assert(g[ranks_with(g, 4, 2)[0] as int] == 4);
        }
    }
    assert(ranks_with(g, 3, 2).len() == 0) by {
        if ranks_with(g, 3, 2).len() > 0 {
            assert(g[ranks_with(g, 3, 2)[0] as int] == 3);
        }
    }
    assert(ranks_with(g, 2, 2).len() == 0) by {
        if ranks_with(g, 2, 2).len() > 0 {
            assert(g[ranks_with(g, 2, 2)[0] as int] == 2);
        }
    }
}

/// A flush of five of the cards is never better than the flush read from the whole suit.
proof fn lemma_flush_upper(g: Seq<u8>, t: Seq<u8>)
    requires
        g.len() == 15,
        t.len() == 15,
        forall|r: int| 2 <= r <= 14 ==> #[trigger] g[r] <= 1,
        forall|r: int| 2 <= r <= 14 ==> #[trigger] t[r] <= 1,
        below(g, t),
    ensures
        flush_read(g) <= flush_read(t),
{
    lemma_top_mono(g, t, 14);
    lemma_straight_top_bound(g, 14);
    lemma_straight_top_bound(t, 14);
    let gr = ranks_with(g, 1, 2);
    let tr = ranks_with(t, 1, 2);
    lemma_ranks_with(g, 1, 2);
    lemma_ranks_with(t, 1, 2);
    if wheel_in(g) {
        assert(g[14] <= t[14] && g[5] <= t[5] && g[4] <= t[4] && g[3] <= t[3] && g[2] <= t[2]);
    }
    assert forall|i: int| 0 <= i < gr.len() implies tr.contains(#[trigger] gr[i]) by {
        let y = gr[i];
        assert(g[y as int] == 1);
        assert(t[y as int] >= 1);
        lemma_ranks_with_contains(t, 1, 2, y);
    }
    lemma_prefix_bound(tr, gr);
    assert forall|k: int| 0 <= k < 5 implies #[trigger] vat(gr, k) <= vat(tr, k) by {}
    assert(vat(tr, 0) <= 14 && vat(tr, 1) <= 14 && vat(tr, 2) <= 14 && vat(tr, 3) <= 14 && vat(tr, 4) <= 14);
    assert(vat(gr, 0) >= 0 && vat(gr, 1) >= 0 && vat(gr, 2) >= 0 && vat(gr, 3) >= 0 && vat(gr, 4) >= 0);
}

/// Five ranks of a suit that score its flush read: the top run, the wheel, or the five
/// highest ranks.
spec fn flush_witness(t: Seq<u8>) -> Seq<u8> {
    let top = straight_top(t, 14);
    let r1 = ranks_with(t, 1, 2);
    if top > 0 {
        seq![top as u8, (top - 1) as u8, (top - 2) as u8, (top - 3) as u8, (top - 4) as u8]
    } else if wheel_in(t) {
        seq![14u8, 5u8, 4u8, 3u8, 2u8]
    } else {
        seq![r1[0], r1[1], r1[2], r1[3], r1[4]]
    }
}

/// The witness ranks of a suit's flush are five of its ranks, and their own flush read is the
/// suit's.
proof fn lemma_flush_witness(v: Seq<u8>)
    requires
        strictly_down(v),
        v.len() >= 5,
    ensures
        flush_witness(freq_of(v)).len() == 5,
        strictly_down(flush_witness(freq_of(v))),
        forall|k: int| 0 <= k < 5 ==> v.contains(#[trigger] flush_witness(freq_of(v))[k]),
        flush_read(freq_of(flush_witness(freq_of(v)))) == flush_read(freq_of(v)),
{
    let t = freq_of(v);
    let w = flush_witness(t);
    lemma_distinct_table(v);
    lemma_straight_top_bound(t, 14);
    let top = straight_top(t, 14);
    assert(strictly_down(w));
    let g = freq_of(w);
    lemma_distinct_table(w);
    assert forall|k: int| 0 <= k < 5 implies v.contains(#[trigger] w[k]) by {
        if top == 0 && !wheel_in(t) {
            assert(v[k] == w[k]);
        } else {
            assert(t[w[k] as int] > 0);
        }
    }
    assert(below(g, t)) by {
        assert forall|r: int| 2 <= r <= 14 implies #[trigger] g[r] <= t[r] by {
            if g[r] == 1 {
                let k = choose|k: int| 0 <= k < w.len() && w[k] == r as u8;
                assert(v.contains(w[k]));
            }
        }
    }
    lemma_top_mono(g, t, 14);
    lemma_straight_top_bound(g, 14);
    if top > 0 {
        assert forall|b: int| top < b <= 14 implies !#[trigger] run_at(g, b) by {
            assert(!w.contains(b as u8));
        }
        assert(w.contains(w[0]) && w.contains(w[1]) && w.contains(w[2]) && w.contains(w[3]) && w.contains(w[4]));
        super::agree_buckets::lemma_straight_top_is(g, 14, top);
    } else {
        if wheel_in(g) {
            assert(g[14] <= t[14] && g[5] <= t[5] && g[4] <= t[4] && g[3] <= t[3] && g[2] <= t[2]);
        }
        if wheel_in(t) {
            assert(w.contains(w[0]) && w.contains(w[1]) && w.contains(w[2]) && w.contains(w[3]) && w.contains(w[4]));
        }
    }
}

/// With five cards of one suit among seven distinct cards, at most two cards lie outside it,
/// so no rank is held four times and two ranks together at most four times.
#[verifier::spinoff_prover]
#[verifier::rlimit(40)]
proof fn lemma_flush_groups(s: Seq<Card>, x: int, a: int, b: int)
    requires
        s.len() == 7,
        s.no_duplicates(),
        suit_count(s, x) >= 5,
        a != b,
    ensures
        count_of(rank_values(s), a) <= 3,
        count_of(rank_values(s), a) + count_of(rank_values(s), b) <= 4,
{
    let v = rank_values(s);
    lemma_count_seven(v, a);
    lemma_count_seven(v, b);
    lemma_suit_seven(s, x);
    assert forall|i: int, j: int|
        0 <= i < j < 7 && s[i].suit.index() == x && s[j].suit.index() == x implies #[trigger] v[i] != #[trigger] v[j] by {
        if v[i] == v[j] {
            super::agree::lemma_same_card(s[i], s[j]);
        }
    }
    assert(v[0] != v[1] || suit_hit(s[0], x) + suit_hit(s[1], x) <= 1);
}

/// Two suits together hold at most the seven cards.
proof fn lemma_two_suits(s: Seq<Card>, x: int, y: int)
    requires
        s.len() == 7,
        x != y,
    ensures
        suit_count(s, x) + suit_count(s, y) <= 7,
{
    lemma_suit_seven(s, x);
    lemma_suit_seven(s, y);
}

/// Beside five cards of one suit, five of the seven cards not all of that suit make at most a
/// straight: below any flush.
proof fn lemma_flush_beats_rest(s: Seq<Card>, x: int, j0: int, j1: int, j2: int, j3: int, j4: int)
    requires
        s.len() == 7,
        s.no_duplicates(),
        suit_count(s, x) >= 5,
        combo5(j0, j1, j2, j3, j4),
    ensures
        nonflush5(freq_of(rank_values(pick5(s, j0, j1, j2, j3, j4)))) < code_of(5, 0, 0, 0, 0, 0),
{
    let f = freq_of(rank_values(s));
    let g = freq_of(rank_values(pick5(s, j0, j1, j2, j3, j4)));
    lemma_subset_table(s, j0, j1, j2, j3, j4);
    lemma_table_setting(g, 5);
    lemma_straight_top_bound(g, 14);
    let g4 = ranks_with(g, 4, 2);
    let g3 = ranks_with(g, 3, 2);
    let g2 = ranks_with(g, 2, 2);
    let g1 = ranks_with(g, 1, 2);
    if g4.len() > 0 {
        let q = g4[0];
        lemma_flush_groups(s, x, q as int, (q as int) + 1);
        assert(g[q as int] == 4);
    }
    if g3.len() > 0 && g2.len() > 0 {
        let t = g3[0];
        let p = g2[0];
        assert(g[t as int] == 3 && g[p as int] == 2);
        lemma_flush_groups(s, x, t as int, p as int);
    }
    assert(g4.len() == 0 && !(g3.len() > 0 && g2.len() > 0));
    assert(last_or_zero(g4) == 0);
    assert(g3.len() > 0 ==> last_or_zero(g3) == g3[0]);
    assert forall|k: int| 0 <= k < 5 implies 0 <= #[trigger] vat(g1, k) <= 14 && 0 <= vat(g2, k) <= 14 by {}
    assert(g3.len() > 0 ==> 2 <= g3[0] <= 14);
}

/// The rank values of the cards of the suit at position `x`, with 0 in place of every other
/// card.
spec fn suit_positions(s: Seq<Card>, x: int) -> Seq<u8> {
    Seq::new(
        s.len(),
        |i: int|
            if s[i].suit.index() == x {
                s[i].rank.value() as u8
            } else {
                0u8
            },
    )
}

/// Distinct ranks held by cards of one suit are held among that suit's rank values.
proof fn lemma_suited_subset(s: Seq<Card>, x: int, w: Seq<u8>)
    requires
        w.len() == 5,
        strictly_down(w),
        forall|k: int| 0 <= k < 5 ==> super::agree::has_card(s, x, #[trigger] w[k] as int),
    ensures
        w.to_multiset().subset_of(suit_positions(s, x).to_multiset()),
{
    broadcast use vstd::seq_lib::group_to_multiset_ensures;

    let u = suit_positions(s, x);
    let h = w.to_multiset();
    lemma_distinct_table(w);
    assert forall|y: u8| h.count(y) <= u.to_multiset().count(y) by {
        lemma_count_of_multiset(w, y);
        lemma_count_five(w, y as int);
        if h.count(y) > 0 {
            let k = choose|k: int| 0 <= k < w.len() && w[k] == y;
            assert(super::agree::has_card(s, x, w[k] as int));
            let i = choose|i: int| 0 <= i < s.len() && (#[trigger] s[i]).suit.index() == x && s[i].rank.value() == w[k];
            assert(u[i] == y);
            assert(u.contains(y));
            assert(freq_of(w)[y as int] == 1);
        }
    }
}

/// Five of the seven cards, all of the suit at position `x`, whose ranks are the given
/// distinct ranks of that suit.
#[verifier::spinoff_prover]
proof fn lemma_choose_suited(s: Seq<Card>, x: int, w: Seq<u8>) -> (j: (int, int, int, int, int))
    requires
        s.len() == 7,
        w.len() == 5,
        strictly_down(w),
        forall|k: int| 0 <= k < 5 ==> super::agree::has_card(s, x, #[trigger] w[k] as int),
    ensures
        combo5(j.0, j.1, j.2, j.3, j.4),
        flush5(pick5(s, j.0, j.1, j.2, j.3, j.4)),
        pick5(s, j.0, j.1, j.2, j.3, j.4)[0].suit.index() == x,
        freq_of(rank_values(pick5(s, j.0, j.1, j.2, j.3, j.4))) == freq_of(w),
{
    broadcast use vstd::seq_lib::group_to_multiset_ensures;

    let u = suit_positions(s, x);
    let h = w.to_multiset();
    lemma_suited_subset(s, x, w);
    assert(u.subrange(0, 7) =~= u);
    lemma_pick_from(u, h, 0);
    let p = pick_from(u, h, 0);
    assert(p.len() == 5);
    let j = (p[0], p[1], p[2], p[3], p[4]);
    assert(p[0] < p[1] && p[1] < p[2] && p[2] < p[3] && p[3] < p[4]);
    assert(0 <= p[0] && p[4] < 7);
    let c = pick5(s, j.0, j.1, j.2, j.3, j.4);
    let up = at_positions(u, p);
    assert forall|k: int| 0 <= k < 5 implies #[trigger] s[p[k]].suit.index() == x && up[k] == s[p[k]].rank.value() by {
        assert(up.to_multiset().count(up[k]) > 0);
        assert(h.count(up[k]) > 0);
        assert(w.contains(up[k]));
        let m = choose|m: int| 0 <= m < w.len() && w[m] == up[k];
        assert(w[m] >= 2);
    }
    assert(c[0].suit.index() == x && c[1].suit.index() == x && c[2].suit.index() == x && c[3].suit.index() == x
        && c[4].suit.index() == x);
    assert(Suit::from_index(c[0].suit.index()) == c[0].suit);
    assert(Suit::from_index(c[1].suit.index()) == c[1].suit);
    assert(Suit::from_index(c[2].suit.index()) == c[2].suit);
    assert(Suit::from_index(c[3].suit.index()) == c[3].suit);
    assert(Suit::from_index(c[4].suit.index()) == c[4].suit);
    let cv = rank_values(c);
    assert(cv =~= up);
    assert forall|r: int| 0 <= r < 15 implies #[trigger] freq_of(cv)[r] == freq_of(w)[r] by {
        lemma_count_of_multiset(cv, r as u8);
        lemma_count_of_multiset(w, r as u8);
    }
    assert(freq_of(cv) =~= freq_of(w));
    j
}

/// Seven distinct cards with five or more of one suit: the direct reading is the best code of
/// five of them.
proof fn lemma_direct_flush(s: Seq<Card>)
    requires
        s.len() == 7,
        s.no_duplicates(),
        flush_suit(suit_counts(s)) < 4,
    ensures
        is_best_of_21(s, eval5_fn(), eval7_spec(s)),
{
    let fs = flush_suit(suit_counts(s));
    let fv = suit_ranks(s, fs).sort_by(desc_u8());
    let t = freq_of(fv);
    super::agree::lemma_flush_ranks(s);
    assert(strictly_down(fv));
    lemma_flush_code_read(fv);
    lemma_distinct_table(fv);
    assert(eval7_spec(s) == flush_read(t));
    assert(flush_read(t) >= code_of(5, 0, 0, 0, 0, 0)) by {
        lemma_straight_top_bound(t, 14);
    }
    assert forall|j0: int, j1: int, j2: int, j3: int, j4: int|
        combo5(j0, j1, j2, j3, j4) implies eval5_fn()(#[trigger] pick5(s, j0, j1, j2, j3, j4))
        <= eval7_spec(s) by {
        let p = pick5(s, j0, j1, j2, j3, j4);
        let g = freq_of(rank_values(p));
        super::agree_buckets::lemma_pick5_distinct(s, j0, j1, j2, j3, j4);
        super::agree_buckets::lemma_buckets_agree(p);
        if flush5(p) {
            let y = p[0].suit.index();
            lemma_suit_seven(s, y);
            assert(j0 <= 2 && j1 <= 3 && j2 <= 4 && j3 <= 5);
            assert(suit_count(s, y) >= 5);
            if y != fs {
                lemma_two_suits(s, y, fs);
            }
            lemma_flush_five(p);
            assert(below(g, t)) by {
                assert forall|r: int| 2 <= r <= 14 implies #[trigger] g[r] <= t[r] by {
                    if g[r] > 0 {
                        lemma_count_five(rank_values(p), r);
                        let k = if p[0].rank.value() == r {
                            0int
                        } else if p[1].rank.value() == r {
                            1int
                        } else if p[2].rank.value() == r {
                            2int
                        } else if p[3].rank.value() == r {
                            3int
                        } else {
                            4int
                        };
                        assert(p[k].rank.value() == r);
                        assert(p[k].suit == p[0].suit);
                        let i = if k == 0 {
                            j0
                        } else if k == 1 {
                            j1
                        } else if k == 2 {
                            j2
                        } else if k == 3 {
                            j3
                        } else {
                            j4
                        };
                        assert(s[i] == p[k]);
                        assert(super::agree::has_card(s, fs, r));
                        assert(fv.contains(r as u8));
                    }
                }
            }
            lemma_flush_upper(g, t);
        } else {
            lemma_buckets_nonflush(p);
            lemma_flush_beats_rest(s, fs, j0, j1, j2, j3, j4);
        }
    }
    lemma_flush_witness(fv);
    let w = flush_witness(t);
    assert forall|k: int| 0 <= k < 5 implies super::agree::has_card(s, fs, #[trigger] w[k] as int) by {
        assert(fv.contains(w[k]));
    }
    let j = lemma_choose_suited(s, fs, w);
    let p = pick5(s, j.0, j.1, j.2, j.3, j.4);
    super::agree_buckets::lemma_pick5_distinct(s, j.0, j.1, j.2, j.3, j.4);
    super::agree_buckets::lemma_buckets_agree(p);
    lemma_flush_five(p);
    assert(eval5_fn()(p) == eval7_spec(s));
}

/// The direct seven-card evaluator gives the best code of the twenty-one five-card subsets of
/// seven distinct cards.
pub proof fn lemma_direct_agrees(s: Seq<Card>)
    requires
        s.len() == 7,
        s.no_duplicates(),
    ensures
        eval7_spec(s) == best21(s, eval5_fn()),
{
    if flush_suit(suit_counts(s)) < 4 {
        lemma_direct_flush(s);
    } else {
        lemma_direct_no_flush(s);
    }
    super::score::lemma_best21_unique(s, eval5_fn(), eval7_spec(s));
}

/// When no card is given twice, the direct seven-card evaluator gives the best-of-twenty-one
/// evaluator's codes in every deal, so with the same seed and shuffle both count exactly the
/// same wins and categories.
pub proof fn lemma_direct_counts(
    kind: Shuffle,
    s: Seq<Option<Card>>,
    x: u64,
    r: nat,
    i: int,
    k: int,
)
    requires
        distinct_given(s),
        none_count(s) <= residual_deck(s).len(),
        s.len() >= 5,
        (s.len() - 5) % 2 == 0,
    ensures
        win_count(Scorer::Direct, kind, s, x, r, i, k) == win_count(Scorer::Sorted, kind, s, x, r, i, k),
        category_count(Scorer::Direct, kind, s, x, r, i, k) == category_count(
            Scorer::Sorted,
            kind,
            s,
            x,
            r,
            i,
            k,
        ),
{
    assert forall|t: nat| 1 <= t <= r implies #[trigger] round_scores(Scorer::Direct, kind, s, x, t)
        == round_scores(Scorer::Sorted, kind, s, x, t) by {
        let n = players_of(s);
        let d = state_after(kind, s, x, t).0;
        lemma_state_fresh(kind, s, x, t);
        let a = round_scores(Scorer::Direct, kind, s, x, t);
        let b = round_scores(Scorer::Sorted, kind, s, x, t);
        assert forall|p: int| 0 <= p < a.len() implies a[p] == b[p] by {
            lemma_seven_distinct(s, n, d, p);
            lemma_direct_agrees(seven_of(s, n, d, p));
        }
        assert(a =~= b);
    }
    super::agree::lemma_same_scores_same_counts(Scorer::Direct, Scorer::Sorted, kind, s, x, r, i, k);
}

} // verus!
