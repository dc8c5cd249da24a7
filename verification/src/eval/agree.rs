//! Where the evaluators agree: the lookup tables and the direct evaluator, the bucket scan and
//! the sorting evaluator, the hand values and the hand codes.

use vstd::prelude::*;
use crate::card::{Card, Rank, Suit};
use super::lut::{bit_on, flush_entry, lemma_mask_ranks, lut_spec, mask_ranks, suit_mask};
use super::model::{
    eval7_spec, flush_suit, lemma_sorted_ranks, lemma_suit_count_le_len, lemma_suit_ranks,
    suit_count, suit_counts, suit_ranks,
};
use super::sort::{desc_u8, group_leq, lemma_desc_u8_total, lemma_group_leq_total};
use super::model::{
    eval5_spec, fsum, freq_of, gat, group_at, groups_top, lemma_ordered_groups, lemma_sorted_values,
    ordered_groups, sorted_values, vat,
};
use super::model::{combo5, eval5_fn, is_best_of_21, pick5};
use super::naive::{beats, combo_n, group_ranks, is_best_value, value_spec};
use super::score::{
    best21, best_value, lemma_best21_unique, lemma_best_value_unique, lemma_count_freq_sum,
    lemma_value_code_order, lemma_value_packable, value_code,
};
use super::deal::{distinct_given, lemma_seven_distinct, none_count, residual_deck};
use super::lut::LutData;
use super::score::Scorer;
use super::sim::{category_count, lemma_state_fresh, players_of, round_scores, state_after, win_count, Shuffle};

verus! {

/// Setting bit `r` of a mask sets exactly that bit.
proof fn lemma_bit_set(m: u16, r: u16, b: u16)
    requires
        r < 13,
        b < 13,
    ensures
        bit_on(m | (1u16 << r), b) <==> (bit_on(m, b) || r == b),
        !bit_on(0u16, b),
{
    assert(((m | (1u16 << r)) & (1u16 << b) != 0) <==> ((m & (1u16 << b) != 0) || r == b))
        by (bit_vector)
        requires
            r < 13,
            b < 13,
    ;
    assert((0u16 & (1u16 << b)) == 0) by (bit_vector);
}

/// Some card of the given suit position has rank value `x`.
pub open spec fn has_card(cards: Seq<Card>, s: int, x: int) -> bool {
    exists|j: int| 0 <= j < cards.len() && (#[trigger] cards[j]).suit.index() == s && cards[j].rank.value() == x
}

/// Bit `b` of a suit's rank mask is set exactly when a card of that suit has rank value
/// `b + 2`.
proof fn lemma_suit_mask_bits(cards: Seq<Card>, s: int, b: u16)
    requires
        b < 13,
    ensures
        bit_on(suit_mask(cards, s), b) <==> has_card(cards, s, b + 2),
    decreases cards.len(),
{
    if cards.len() == 0 {
        lemma_bit_set(0, 0, b);
    } else {
        let w = cards.drop_last();
        lemma_suit_mask_bits(w, s, b);
        let l = cards.last();
        if l.suit.index() == s {
            lemma_bit_set(suit_mask(w, s), (l.rank.value() - 2) as u16, b);
        }
        if has_card(w, s, b + 2) {
            let j = choose|j: int| 0 <= j < w.len() && (#[trigger] w[j]).suit.index() == s && w[j].rank.value() == b + 2;
            assert(cards[j] == w[j]);
        }
        if has_card(cards, s, b + 2) {
            let j = choose|j: int| 0 <= j < cards.len() && (#[trigger] cards[j]).suit.index() == s && cards[j].rank.value() == b + 2;
            if j < w.len() {
                assert(w[j] == cards[j]);
            }
        }
    }
}

/// The ranks listed by a mask are those of its set bits.
proof fn lemma_mask_ranks_contains(m: u16, lo: int, x: u8)
    requires
        0 <= lo <= 13,
    ensures
        mask_ranks(m, lo).contains(x) <==> (lo + 2 <= x <= 14 && bit_on(m, (x - 2) as u16)),
    decreases 13 - lo,
{
    if lo <= 12 {
        lemma_mask_ranks_contains(m, lo + 1, x);
        let r = mask_ranks(m, lo + 1);
        if bit_on(m, lo as u16) {
            assert(mask_ranks(m, lo) == r.push((lo + 2) as u8));
            if r.push((lo + 2) as u8).contains(x) {
                let i = choose|i: int| 0 <= i < r.len() + 1 && #[trigger] r.push((lo + 2) as u8)[i] == x;
                if i < r.len() {
                    assert(r[i] == x);
                }
            }
            if r.contains(x) {
                let i = choose|i: int| 0 <= i < r.len() && r[i] == x;
                assert(r.push((lo + 2) as u8)[i] == x);
            }
            if x == lo + 2 {
                assert(r.push((lo + 2) as u8)[r.len() as int] == x);
            }
        }
    } else {
        assert(mask_ranks(m, lo).len() == 0);
    }
}

/// The ranks of a suit are those of its cards.
proof fn lemma_suit_ranks_contains(cards: Seq<Card>, s: int, x: u8)
    ensures
        suit_ranks(cards, s).contains(x) <==> has_card(cards, s, x as int),
    decreases cards.len(),
{
    if cards.len() > 0 {
        let w = cards.drop_last();
        lemma_suit_ranks_contains(w, s, x);
        lemma_suit_ranks(w, s);
        let r = suit_ranks(w, s);
        let l = cards.last();
        if has_card(w, s, x as int) {
            let j = choose|j: int| 0 <= j < w.len() && (#[trigger] w[j]).suit.index() == s && w[j].rank.value() == x;
            assert(cards[j] == w[j]);
        }
        if has_card(cards, s, x as int) {
            let j = choose|j: int| 0 <= j < cards.len() && (#[trigger] cards[j]).suit.index() == s && cards[j].rank.value() == x;
            if j < w.len() {
                assert(w[j] == cards[j]);
            } else {
                assert(l.suit.index() == s);
                assert(r.push(l.rank.value() as u8)[r.len() as int] == x);
            }
        }
        if l.suit.index() == s {
            let e = l.rank.value() as u8;
            if r.push(e).contains(x) {
                let i = choose|i: int| 0 <= i < r.len() + 1 && #[trigger] r.push(e)[i] == x;
                if i < r.len() {
                    assert(r[i] == x);
                } else {
                    assert(cards[cards.len() - 1] == l);
                }
            }
            if r.contains(x) {
                let i = choose|i: int| 0 <= i < r.len() && r[i] == x;
                assert(r.push(e)[i] == x);
            }
        }
    }
}

/// Cards of one suit position with the same rank value are the same card.
pub proof fn lemma_same_card(a: Card, b: Card)
    requires
        a.suit.index() == b.suit.index(),
        a.rank.value() == b.rank.value(),
    ensures
        a == b,
{
    assert(Rank::from_index(a.rank.index()) == a.rank);
    assert(Rank::from_index(b.rank.index()) == b.rank);
    assert(Suit::from_index(a.suit.index()) == a.suit);
    assert(Suit::from_index(b.suit.index()) == b.suit);
}

/// Without a card twice, a suit never lists a rank twice.
proof fn lemma_suit_ranks_distinct(cards: Seq<Card>, s: int)
    requires
        cards.no_duplicates(),
    ensures
        suit_ranks(cards, s).no_duplicates(),
    decreases cards.len(),
{
    if cards.len() > 0 {
        let w = cards.drop_last();
        assert(w.no_duplicates()) by {
            assert forall|a: int, b: int| 0 <= a < w.len() && 0 <= b < w.len() && a != b implies w[a]
                != w[b] by {
                assert(w[a] == cards[a] && w[b] == cards[b]);
            }
        }
        lemma_suit_ranks_distinct(w, s);
        let l = cards.last();
        if l.suit.index() == s {
            let r = suit_ranks(w, s);
            let e = l.rank.value() as u8;
            lemma_suit_ranks(w, s);
            if r.contains(e) {
                lemma_suit_ranks_contains(w, s, e);
                let j = choose|j: int| 0 <= j < w.len() && (#[trigger] w[j]).suit.index() == s && w[j].rank.value() == e;
                lemma_same_card(w[j], l);
                assert(cards[j] == cards[cards.len() - 1]);
            }
            assert forall|a: int, b: int| 0 <= a < r.len() + 1 && 0 <= b < r.len() + 1 && a != b implies r.push(e)[a]
                != r.push(e)[b] by {
                if a == r.len() {
                    assert(r.contains(r[b]));
                } else if b == r.len() {
                    assert(r.contains(r[a]));
                }
            }
        }
    }
}

/// No entry twice: the multiset of a sequence counts each of its entries once.
pub proof fn lemma_distinct_multiset<A>(a: Seq<A>, b: Seq<A>)
    requires
        a.no_duplicates(),
        b.no_duplicates(),
        forall|x: A| a.contains(x) <==> b.contains(x),
    ensures
        a.to_multiset() == b.to_multiset(),
{
    broadcast use vstd::seq_lib::group_to_multiset_ensures;

    a.lemma_multiset_has_no_duplicates();
    b.lemma_multiset_has_no_duplicates();
    assert forall|x: A| a.to_multiset().count(x) == b.to_multiset().count(x) by {
        if a.contains(x) {
            assert(b.contains(x));
        } else {
            assert(!b.contains(x));
        }
    }
    assert(a.to_multiset() =~= b.to_multiset());
}

/// The flush suit's ranks of seven distinct cards, highest first: strictly decreasing, five to
/// seven of them, exactly the ranks of the cards of that suit, and the ranks its mask lists.
pub proof fn lemma_flush_ranks(seven: Seq<Card>)
    requires
        seven.len() == 7,
        seven.no_duplicates(),
        flush_suit(suit_counts(seven)) < 4,
    ensures
        ({
            let fs = flush_suit(suit_counts(seven));
            let fv = suit_ranks(seven, fs).sort_by(desc_u8());
            &&& 5 <= fv.len() <= 7
            &&& fv.len() == suit_count(seven, fs)
            &&& forall|i: int| 0 <= i < fv.len() ==> 2 <= #[trigger] fv[i] <= 14
            &&& forall|i: int, j: int| 0 <= i < j < fv.len() ==> #[trigger] fv[i] > #[trigger] fv[j]
            &&& forall|x: u8| fv.contains(x) <==> has_card(seven, fs, x as int)
            &&& fv == mask_ranks(suit_mask(seven, fs), 0)
        }),
{
    let fs = flush_suit(suit_counts(seven));
    let sr = suit_ranks(seven, fs);
    let fv = sr.sort_by(desc_u8());
    let m = suit_mask(seven, fs);
    let mr = mask_ranks(m, 0);
    lemma_suit_ranks(seven, fs);
    lemma_sorted_ranks(sr);
    lemma_mask_ranks(m, 0);
    lemma_suit_ranks_distinct(seven, fs);
    lemma_suit_count_le_len(seven, fs);
    assert(sr.len() >= 5) by {
        if suit_count(seven, fs) < 5 {
            assert(suit_counts(seven)[fs] == suit_count(seven, fs));
        }
    }
    assert(mr.no_duplicates()) by {
        assert forall|a: int, b: int| 0 <= a < mr.len() && 0 <= b < mr.len() && a != b implies mr[a]
            != mr[b] by {
            if a < b {
                assert(mr[a] > mr[b]);
            } else {
                assert(mr[b] > mr[a]);
            }
        }
    }
    assert forall|x: u8| mr.contains(x) <==> sr.contains(x) by {
        lemma_mask_ranks_contains(m, 0, x);
        lemma_suit_ranks_contains(seven, fs, x);
        if 2 <= x <= 14 {
            lemma_suit_mask_bits(seven, fs, (x - 2) as u16);
        }
        if sr.contains(x) {
            let i = choose|i: int| 0 <= i < sr.len() && sr[i] == x;
            assert(2 <= sr[i] <= 14);
        }
    }
    lemma_distinct_multiset(mr, sr);
    lemma_desc_u8_total();
    assert(vstd::relations::sorted_by(mr, desc_u8())) by {
        assert forall|a: int, b: int| 0 <= a < b < mr.len() implies (desc_u8())(mr[a], mr[b]) by {
            assert(mr[a] > mr[b]);
        }
    }
    vstd::seq_lib::lemma_sorted_unique(mr, fv, desc_u8());
    assert forall|x: u8| fv.contains(x) <==> has_card(seven, fs, x as int) by {
        lemma_suit_ranks_contains(seven, fs, x);
    }
}

/// With seven distinct cards, the lookup tables give the code of the direct seven-card
/// evaluator.
pub proof fn lemma_lut_agrees(seven: Seq<Card>)
    requires
        seven.len() == 7,
        seven.no_duplicates(),
    ensures
        lut_spec(seven) == eval7_spec(seven),
{
    let fs = flush_suit(suit_counts(seven));
    if fs < 4 {
        lemma_flush_ranks(seven);
    }
}

/// When no card is given twice, every deal gives the same codes with the lookup tables as
/// with the direct seven-card evaluator.
pub proof fn lemma_table_round(
    lut: &LutData,
    kind: Shuffle,
    s: Seq<Option<Card>>,
    x: u64,
    t: nat,
)
    requires
        distinct_given(s),
        none_count(s) <= residual_deck(s).len(),
        s.len() >= 5,
        (s.len() - 5) % 2 == 0,
    ensures
        round_scores(Scorer::Table(lut), kind, s, x, t) == round_scores(Scorer::Direct, kind, s, x, t),
{
    let n = players_of(s);
    let d = state_after(kind, s, x, t).0;
    lemma_state_fresh(kind, s, x, t);
    assert forall|i: int| 0 <= i < n implies #[trigger] lut_spec(super::deal::seven_of(s, n, d, i))
        == eval7_spec(super::deal::seven_of(s, n, d, i)) by {
        lemma_seven_distinct(s, n, d, i);
        lemma_lut_agrees(super::deal::seven_of(s, n, d, i));
    }
    assert(round_scores(Scorer::Table(lut), kind, s, x, t) =~= round_scores(
        Scorer::Direct,
        kind,
        s,
        x,
        t,
    ));
}

/// When no card is given twice, a simulation with the lookup tables counts exactly what the
/// same simulation with the direct seven-card evaluator counts.
pub proof fn lemma_table_counts(
    lut: &LutData,
    kind: Shuffle,
    s: Seq<Option<Card>>,
    x: u64,
    r: nat,
    i: int,
    k: int,
)
    requires
        distinct_given(s),
        none_count(s) <= residual_deck(s).len(),
        s.len() >= 5,
        (s.len() - 5) % 2 == 0,
    ensures
        win_count(Scorer::Table(lut), kind, s, x, r, i, k) == win_count(Scorer::Direct, kind, s, x, r, i, k),
        category_count(Scorer::Table(lut), kind, s, x, r, i, k) == category_count(
            Scorer::Direct,
            kind,
            s,
            x,
            r,
            i,
            k,
        ),
    decreases r,
{
    if r > 0 {
        lemma_table_counts(lut, kind, s, x, (r - 1) as nat, i, k);
        lemma_table_round(lut, kind, s, x, r);
    }
}

/// Sum of the counts of a group sequence.
pub open spec fn csum(g: Seq<(u8, u8)>) -> int
    decreases g.len(),
{
    if g.len() == 0 {
        0
    } else {
        g[0].1 + csum(g.drop_first())
    }
}

/// Counts of a concatenation add up.
proof fn lemma_csum_add(a: Seq<(u8, u8)>, b: Seq<(u8, u8)>)
    ensures
        csum(a + b) == csum(a) + csum(b),
    decreases a.len(),
{
    if a.len() > 0 {
        assert((a + b).drop_first() =~= a.drop_first() + b);
        lemma_csum_add(a.drop_first(), b);
    } else {
        assert(a + b =~= b);
    }
}

/// Removing one group takes its count off the sum.
proof fn lemma_csum_remove(t: Seq<(u8, u8)>, k: int)
    requires
        0 <= k < t.len(),
    ensures
        csum(t) == t[k].1 + csum(t.remove(k)),
    decreases k,
{
    if k == 0 {
        assert(t.remove(0) =~= t.drop_first());
    } else {
        lemma_csum_remove(t.drop_first(), k - 1);
        assert(t.remove(k).drop_first() =~= t.drop_first().remove(k - 1));
        assert(t.remove(k)[0] == t[0]);
    }
}

/// Sequences with the same groups have the same count sum.
proof fn lemma_csum_perm(s: Seq<(u8, u8)>, t: Seq<(u8, u8)>)
    requires
        s.to_multiset() == t.to_multiset(),
    ensures
        csum(s) == csum(t),
    decreases s.len(),
{
    broadcast use vstd::seq_lib::group_to_multiset_ensures;
    broadcast use vstd::multiset::group_multiset_axioms;

    if s.len() == 0 {
        assert(t.to_multiset().len() == 0);
        assert(t.len() == 0);
    } else {
        let x = s[0];
        assert(s.to_multiset().contains(x)) by {
            assert(s.contains(x));
        }
        assert(t.contains(x));
        let k = choose|k: int| 0 <= k < t.len() && t[k] == x;
        assert(s.remove(0) =~= s.drop_first());
        assert(s.remove(0).to_multiset() == s.to_multiset().remove(s[0]));
        assert(t.remove(k).to_multiset() == t.to_multiset().remove(t[k]));
        lemma_csum_perm(s.drop_first(), t.remove(k));
        lemma_csum_remove(t, k);
    }
}

/// The groups of a table count all its entries from `lo` up.
proof fn lemma_csum_groups_top(f: Seq<u8>, lo: int)
    requires
        f.len() == 15,
        2 <= lo <= 15,
    ensures
        csum(groups_top(f, lo)) == fsum(f, lo),
    decreases 15 - lo,
{
    if lo <= 14 {
        lemma_csum_groups_top(f, lo + 1);
        lemma_csum_add(groups_top(f, lo + 1), group_at(f, lo));
        if f[lo] > 0 {
            assert(csum(group_at(f, lo)) == f[lo]) by {
                let one = group_at(f, lo);
                assert(one.drop_first().len() == 0);
                assert(csum(one.drop_first()) == 0);
                assert(one[0].1 == f[lo]);
            }
        }
    }
}

/// Facts about the ordered groups of five cards: their counts add up to five, are positive,
/// and never increase.
proof fn lemma_five_groups(c: Seq<Card>)
    requires
        c.len() == 5,
    ensures
        csum(ordered_groups(freq_of(sorted_values(c)))) == 5,
        forall|i: int|
            0 <= i < ordered_groups(freq_of(sorted_values(c))).len() ==> #[trigger] ordered_groups(
                freq_of(sorted_values(c)),
            )[i].1 >= 1,
        forall|i: int, j: int|
            0 <= i < j < ordered_groups(freq_of(sorted_values(c))).len() ==> #[trigger] ordered_groups(
                freq_of(sorted_values(c)),
            )[i].1 >= #[trigger] ordered_groups(freq_of(sorted_values(c)))[j].1,
{
    broadcast use vstd::seq_lib::group_to_multiset_ensures;

    let v = sorted_values(c);
    let f = freq_of(v);
    lemma_sorted_values(c);
    lemma_count_freq_sum(v);
    lemma_ordered_groups(f);
    lemma_csum_groups_top(f, 2);
    let g = groups_top(f, 2);
    lemma_group_leq_total();
    g.lemma_sort_by_ensures(group_leq());
    lemma_csum_perm(ordered_groups(f), g);
    let o = ordered_groups(f);
    assert forall|i: int, j: int| 0 <= i < j < o.len() implies #[trigger] o[i].1 >= #[trigger] o[j].1 by {
        assert((group_leq())(o[i], o[j]));
    }
}

/// A sum of counts, each at least one, is at least the number of groups.
proof fn lemma_csum_len(g: Seq<(u8, u8)>)
    requires
        forall|i: int| 0 <= i < g.len() ==> #[trigger] g[i].1 >= 1,
    ensures
        csum(g) >= g.len(),
    decreases g.len(),
{
    if g.len() > 0 {
        assert forall|i: int| 0 <= i < g.drop_first().len() implies #[trigger] g.drop_first()[i].1 >= 1 by {
            assert(g.drop_first()[i] == g[i + 1]);
        }
        lemma_csum_len(g.drop_first());
    }
}

/// A sum of counts, each at most one, is at most the number of groups.
proof fn lemma_csum_le_len(g: Seq<(u8, u8)>)
    requires
        forall|i: int| 0 <= i < g.len() ==> #[trigger] g[i].1 <= 1,
    ensures
        csum(g) <= g.len(),
    decreases g.len(),
{
    if g.len() > 0 {
        assert forall|i: int| 0 <= i < g.drop_first().len() implies #[trigger] g.drop_first()[i].1 <= 1 by {
            assert(g.drop_first()[i] == g[i + 1]);
        }
        lemma_csum_le_len(g.drop_first());
    }
}

/// The hand value of five cards packs into the sorting evaluator's hand code.
pub proof fn lemma_value_code_agrees(c: Seq<Card>)
    requires
        c.len() == 5,
    ensures
        value_code(value_spec(c)) == eval5_spec(c),
{
    let v = sorted_values(c);
    let f = freq_of(v);
    let g = ordered_groups(f);
    lemma_sorted_values(c);
    lemma_five_groups(c);
    lemma_csum_len(g);
    let g1 = g.drop_first();
    let g2 = g1.drop_first();
    let g3 = g2.drop_first();
    if g.len() >= 1 {
        assert forall|i: int| 0 <= i < g1.len() implies #[trigger] g1[i].1 >= 1 by {
            assert(g1[i] == g[i + 1]);
        }
        lemma_csum_len(g1);
    }
    if g.len() >= 2 {
        assert forall|i: int| 0 <= i < g2.len() implies #[trigger] g2[i].1 >= 1 by {
            assert(g2[i] == g[i + 2]);
        }
        lemma_csum_len(g2);
    }
    if g.len() >= 3 {
        assert forall|i: int| 0 <= i < g3.len() implies #[trigger] g3[i].1 >= 1 by {
            assert(g3[i] == g[i + 3]);
        }
        lemma_csum_len(g3);
        if g[1].1 == 1 {
            assert forall|i: int| 0 <= i < g2.len() implies #[trigger] g2[i].1 <= 1 by {
                assert(g2[i] == g[i + 2]);
                assert(g[1].1 >= g[i + 2].1);
            }
            lemma_csum_le_len(g2);
        }
    }
    let tb = group_ranks(g);
    assert forall|i: int| 0 <= i < g.len() implies #[trigger] vat(tb, i) == gat(g, i).0 as int by {}
    assert forall|i: int| g.len() <= i ==> #[trigger] vat(tb, i) == 0 by {}
}

/// The `k`-th five-card subset of seven positions, in lexicographic order.
pub open spec fn combo_of(k: int) -> (int, int, int, int, int) {
    if k == 0 {
        (0, 1, 2, 3, 4)
    } else if k == 1 {
        (0, 1, 2, 3, 5)
    } else if k == 2 {
        (0, 1, 2, 3, 6)
    } else if k == 3 {
        (0, 1, 2, 4, 5)
    } else if k == 4 {
        (0, 1, 2, 4, 6)
    } else if k == 5 {
        (0, 1, 2, 5, 6)
    } else if k == 6 {
        (0, 1, 3, 4, 5)
    } else if k == 7 {
        (0, 1, 3, 4, 6)
    } else if k == 8 {
        (0, 1, 3, 5, 6)
    } else if k == 9 {
        (0, 1, 4, 5, 6)
    } else if k == 10 {
        (0, 2, 3, 4, 5)
    } else if k == 11 {
        (0, 2, 3, 4, 6)
    } else if k == 12 {
        (0, 2, 3, 5, 6)
    } else if k == 13 {
        (0, 2, 4, 5, 6)
    } else if k == 14 {
        (0, 3, 4, 5, 6)
    } else if k == 15 {
        (1, 2, 3, 4, 5)
    } else if k == 16 {
        (1, 2, 3, 4, 6)
    } else if k == 17 {
        (1, 2, 3, 5, 6)
    } else if k == 18 {
        (1, 2, 4, 5, 6)
    } else if k == 19 {
        (1, 3, 4, 5, 6)
    } else {
        (2, 3, 4, 5, 6)
    }
}

/// The place of a five-card subset of seven positions in lexicographic order.
pub open spec fn index_of(j0: int, j1: int, j2: int, j3: int, j4: int) -> int {
    if j0 == 0 && j1 == 1 && j2 == 2 && j3 == 3 && j4 == 4 {
        0
    } else if j0 == 0 && j1 == 1 && j2 == 2 && j3 == 3 && j4 == 5 {
        1
    } else if j0 == 0 && j1 == 1 && j2 == 2 && j3 == 3 && j4 == 6 {
        2
    } else if j0 == 0 && j1 == 1 && j2 == 2 && j3 == 4 && j4 == 5 {
        3
    } else if j0 == 0 && j1 == 1 && j2 == 2 && j3 == 4 && j4 == 6 {
        4
    } else if j0 == 0 && j1 == 1 && j2 == 2 && j3 == 5 && j4 == 6 {
        5
    } else if j0 == 0 && j1 == 1 && j2 == 3 && j3 == 4 && j4 == 5 {
        6
    } else if j0 == 0 && j1 == 1 && j2 == 3 && j3 == 4 && j4 == 6 {
        7
    } else if j0 == 0 && j1 == 1 && j2 == 3 && j3 == 5 && j4 == 6 {
        8
    } else if j0 == 0 && j1 == 1 && j2 == 4 && j3 == 5 && j4 == 6 {
        9
    } else if j0 == 0 && j1 == 2 && j2 == 3 && j3 == 4 && j4 == 5 {
        10
    } else if j0 == 0 && j1 == 2 && j2 == 3 && j3 == 4 && j4 == 6 {
        11
    } else if j0 == 0 && j1 == 2 && j2 == 3 && j3 == 5 && j4 == 6 {
        12
    } else if j0 == 0 && j1 == 2 && j2 == 4 && j3 == 5 && j4 == 6 {
        13
    } else if j0 == 0 && j1 == 3 && j2 == 4 && j3 == 5 && j4 == 6 {
        14
    } else if j0 == 1 && j1 == 2 && j2 == 3 && j3 == 4 && j4 == 5 {
        15
    } else if j0 == 1 && j1 == 2 && j2 == 3 && j3 == 4 && j4 == 6 {
        16
    } else if j0 == 1 && j1 == 2 && j2 == 3 && j3 == 5 && j4 == 6 {
        17
    } else if j0 == 1 && j1 == 2 && j2 == 4 && j3 == 5 && j4 == 6 {
        18
    } else if j0 == 1 && j1 == 3 && j2 == 4 && j3 == 5 && j4 == 6 {
        19
    } else {
        20
    }
}

/// The scores of the twenty-one five-card subsets, in lexicographic order.
pub open spec fn scores21(s: Seq<Card>, f: spec_fn(Seq<Card>) -> int) -> Seq<int> {
    Seq::new(
        21,
        |k: int|
            f(pick5(s, combo_of(k).0, combo_of(k).1, combo_of(k).2, combo_of(k).3, combo_of(k).4)),
    )
}

/// The listed subsets are exactly the five-card subsets of seven positions.
proof fn lemma_combos_listed()
    ensures
        forall|k: int| 0 <= k < 21 ==> combo5(#[trigger] combo_of(k).0, combo_of(k).1, combo_of(k).2, combo_of(k).3, combo_of(k).4),
        forall|j0: int, j1: int, j2: int, j3: int, j4: int|
            combo5(j0, j1, j2, j3, j4) ==> 0 <= #[trigger] index_of(j0, j1, j2, j3, j4) < 21
                && combo_of(index_of(j0, j1, j2, j3, j4)) == (j0, j1, j2, j3, j4),
{
    assert forall|j0: int, j1: int, j2: int, j3: int, j4: int|
        combo5(j0, j1, j2, j3, j4) implies 0 <= #[trigger] index_of(j0, j1, j2, j3, j4) < 21
            && combo_of(index_of(j0, j1, j2, j3, j4)) == (j0, j1, j2, j3, j4) by {
        assert(j0 <= 2 && j1 <= 3 && j2 <= 4 && j3 <= 5);
    }
}

/// Any scoring of five cards has a best score over the twenty-one subsets of seven cards.
pub proof fn lemma_best21_exists(s: Seq<Card>, f: spec_fn(Seq<Card>) -> int)
    ensures
        is_best_of_21(s, f, scores21(s, f).max()),
{
    let sc = scores21(s, f);
    sc.max_ensures();
    lemma_combos_listed();
    assert forall|j0: int, j1: int, j2: int, j3: int, j4: int|
        combo5(j0, j1, j2, j3, j4) implies f(#[trigger] pick5(s, j0, j1, j2, j3, j4)) <= sc.max() by {
        let k = index_of(j0, j1, j2, j3, j4);
        assert(sc[k] == f(pick5(s, j0, j1, j2, j3, j4)));
    }
    let k = choose|k: int| 0 <= k < sc.len() && sc[k] == sc.max();
    let (a0, a1, a2, a3, a4) = combo_of(k);
    assert(combo5(a0, a1, a2, a3, a4));
    assert(f(pick5(s, a0, a1, a2, a3, a4)) == sc.max());
}

/// Over seven cards, the naive evaluator's packed best hand value is the sorting evaluator's
/// best five-card code.
pub proof fn lemma_naive_agrees(s: Seq<Card>)
    requires
        s.len() == 7,
    ensures
        value_code(best_value(s)) == best21(s, eval5_fn()),
        is_best_value(s, best_value(s)),
{
    let m = scores21(s, eval5_fn()).max();
    lemma_best21_exists(s, eval5_fn());
    lemma_best21_unique(s, eval5_fn(), m);
    let (a0, a1, a2, a3, a4) = choose|j0: int, j1: int, j2: int, j3: int, j4: int|
        combo5(j0, j1, j2, j3, j4) && eval5_fn()(#[trigger] pick5(s, j0, j1, j2, j3, j4)) == m;
    let r0 = value_spec(pick5(s, a0, a1, a2, a3, a4));
    lemma_value_code_agrees(pick5(s, a0, a1, a2, a3, a4));
    lemma_value_packable(pick5(s, a0, a1, a2, a3, a4));
    assert forall|j0: int, j1: int, j2: int, j3: int, j4: int|
        combo_n(j0, j1, j2, j3, j4, s.len() as int) implies !beats(
        value_spec(#[trigger] pick5(s, j0, j1, j2, j3, j4)),
        r0,
    ) by {
        let p = pick5(s, j0, j1, j2, j3, j4);
        lemma_value_code_agrees(p);
        lemma_value_packable(p);
        lemma_value_code_order(value_spec(p), r0);
        assert(eval5_fn()(p) <= m);
    }
    assert(combo_n(a0, a1, a2, a3, a4, s.len() as int));
    assert(is_best_value(s, r0));
    lemma_best_value_unique(s, r0);
}

/// Two scorers that give the same codes in every deal count the same wins and categories.
pub proof fn lemma_same_scores_same_counts<'a, 'b>(
    sc1: Scorer<'a>,
    sc2: Scorer<'b>,
    kind: Shuffle,
    s: Seq<Option<Card>>,
    x: u64,
    r: nat,
    i: int,
    k: int,
)
    requires
        forall|t: nat| 1 <= t <= r ==> #[trigger] round_scores(sc1, kind, s, x, t) == round_scores(sc2, kind, s, x, t),
    ensures
        win_count(sc1, kind, s, x, r, i, k) == win_count(sc2, kind, s, x, r, i, k),
        category_count(sc1, kind, s, x, r, i, k) == category_count(sc2, kind, s, x, r, i, k),
    decreases r,
{
    if r > 0 {
        lemma_same_scores_same_counts(sc1, sc2, kind, s, x, (r - 1) as nat, i, k);
        assert(round_scores(sc1, kind, s, x, r) == round_scores(sc2, kind, s, x, r));
    }
}

/// In every deal the naive evaluator gives the sorting evaluator's codes, so with the same
/// seed the naive and the sorting evaluators count exactly the same wins and categories.
pub proof fn lemma_naive_counts(
    kind: Shuffle,
    s: Seq<Option<Card>>,
    x: u64,
    r: nat,
    i: int,
    k: int,
)
    ensures
        win_count(Scorer::Naive, kind, s, x, r, i, k) == win_count(Scorer::Sorted, kind, s, x, r, i, k),
        category_count(Scorer::Naive, kind, s, x, r, i, k) == category_count(
            Scorer::Sorted,
            kind,
            s,
            x,
            r,
            i,
            k,
        ),
{
    assert forall|t: nat| 1 <= t <= r implies #[trigger] round_scores(Scorer::Naive, kind, s, x, t)
        == round_scores(Scorer::Sorted, kind, s, x, t) by {
        let n = players_of(s);
        let d = state_after(kind, s, x, t).0;
        let a = round_scores(Scorer::Naive, kind, s, x, t);
        let b = round_scores(Scorer::Sorted, kind, s, x, t);
        assert(a.len() == b.len());
        assert forall|p: int| 0 <= p < a.len() implies a[p] == b[p] by {
            assert(a[p] == Scorer::Naive.score(super::deal::seven_of(s, n, d, p)));
            assert(b[p] == Scorer::Sorted.score(super::deal::seven_of(s, n, d, p)));
            lemma_naive_agrees(super::deal::seven_of(s, n, d, p));
        }
        assert(a =~= b);
    }
    lemma_same_scores_same_counts(Scorer::Naive, Scorer::Sorted, kind, s, x, r, i, k);
}

/// With every card given, the naive evaluator and the sorting evaluator count the same wins
/// and categories over the same number of deals, whatever seeds and shuffles the two runs use.
pub proof fn lemma_known_naive_counts(
    kind1: Shuffle,
    kind2: Shuffle,
    s: Seq<Option<Card>>,
    x1: u64,
    x2: u64,
    r: nat,
    i: int,
    k: int,
)
    requires
        super::deal::none_count(s) == 0,
        s.len() >= 5,
    ensures
        win_count(Scorer::Naive, kind1, s, x1, r, i, k) == win_count(Scorer::Sorted, kind2, s, x2, r, i, k),
        category_count(Scorer::Naive, kind1, s, x1, r, i, k) == category_count(
            Scorer::Sorted,
            kind2,
            s,
            x2,
            r,
            i,
            k,
        ),
{
    lemma_naive_counts(kind1, s, x1, r, i, k);
    super::sim::lemma_known_counts_any_seed(Scorer::Sorted, kind1, kind2, s, x1, x2, r, i, k);
}

} // verus!
