//! The seven-card scorers a simulation can use, with the bounds on their codes.

use vstd::prelude::*;
use crate::card::Card;
use super::code_of;
use super::lut::{eval_lut, flush_entry, lut_spec, mask_ranks, LutData, lemma_mask_ranks,
    lemma_non_flush_code_bound};
use super::model::{
    combo5, count_of, eval5_buckets_fn, eval5_buckets_spec, eval5_fn, eval5_spec, eval7_spec,
    flush_code, flush_suit, is_best_of_21, lemma_ordered_groups, lemma_ranks_present,
    lemma_ranks_with, lemma_sorted_ranks, lemma_sorted_values, lemma_straight_top_bound,
    lemma_suit_ranks, pick5, rank_values, suit_counts, suit_ranks, vat, first_run,
    freq_of, fsum, non_flush_code,
};
use super::naive::{beats, best_hand, is_best_value, seq_lt, value_spec, combo_n};
use super::sort::desc_u8;

verus! {

/// Bound on every hand code: the category is at most 9.
pub open spec fn code_bound() -> int {
    0xA00000
}

/// The best score over the twenty-one five-card subsets.
pub open spec fn best21(s: Seq<Card>, f: spec_fn(Seq<Card>) -> int) -> int {
    choose|r: int| is_best_of_21(s, f, r)
}

/// A best score over the twenty-one subsets is unique.
pub proof fn lemma_best21_unique(s: Seq<Card>, f: spec_fn(Seq<Card>) -> int, r: int)
    requires
        is_best_of_21(s, f, r),
    ensures
        best21(s, f) == r,
{
    let b = best21(s, f);
    assert(is_best_of_21(s, f, b));
    let (a0, a1, a2, a3, a4) = choose|j0: int, j1: int, j2: int, j3: int, j4: int|
        combo5(j0, j1, j2, j3, j4) && f(#[trigger] pick5(s, j0, j1, j2, j3, j4)) == r;
    let (b0, b1, b2, b3, b4) = choose|j0: int, j1: int, j2: int, j3: int, j4: int|
        combo5(j0, j1, j2, j3, j4) && f(#[trigger] pick5(s, j0, j1, j2, j3, j4)) == b;
    assert(f(pick5(s, a0, a1, a2, a3, a4)) <= b);
    assert(f(pick5(s, b0, b1, b2, b3, b4)) <= r);
}

/// The code of a hand value: category and first five tiebreak ranks.
pub open spec fn value_code(m: (int, Seq<u8>)) -> int {
    code_of(m.0, vat(m.1, 0), vat(m.1, 1), vat(m.1, 2), vat(m.1, 3), vat(m.1, 4))
}

/// The best hand value over the five-card subsets of `s`.
pub open spec fn best_value(s: Seq<Card>) -> (int, Seq<u8>) {
    choose|r: (int, Seq<u8>)| is_best_value(s, r)
}

/// Distinct rank lists are ordered one way or the other.
pub proof fn lemma_seq_lt_total(a: Seq<u8>, b: Seq<u8>)
    requires
        a != b,
    ensures
        seq_lt(a, b) || seq_lt(b, a),
    decreases a.len(),
{
    if a.len() > 0 && b.len() > 0 && a[0] == b[0] {
        if a.drop_first() == b.drop_first() {
            assert(a =~= seq![a[0]] + a.drop_first());
            assert(b =~= seq![b[0]] + b.drop_first());
        }
        lemma_seq_lt_total(a.drop_first(), b.drop_first());
    } else if a.len() == 0 && b.len() == 0 {
        assert(a =~= b);
    }
}

/// A best hand value is unique.
pub proof fn lemma_best_value_unique(s: Seq<Card>, r: (int, Seq<u8>))
    requires
        is_best_value(s, r),
    ensures
        best_value(s) == r,
{
    let b = best_value(s);
    assert(is_best_value(s, b));
    let n = s.len() as int;
    let (a0, a1, a2, a3, a4) = choose|j0: int, j1: int, j2: int, j3: int, j4: int|
        combo_n(j0, j1, j2, j3, j4, n) && value_spec(#[trigger] pick5(s, j0, j1, j2, j3, j4)) == r;
    let (b0, b1, b2, b3, b4) = choose|j0: int, j1: int, j2: int, j3: int, j4: int|
        combo_n(j0, j1, j2, j3, j4, n) && value_spec(#[trigger] pick5(s, j0, j1, j2, j3, j4)) == b;
    assert(!beats(value_spec(pick5(s, a0, a1, a2, a3, a4)), b));
    assert(!beats(value_spec(pick5(s, b0, b1, b2, b3, b4)), r));
    if r.1 != b.1 {
        lemma_seq_lt_total(r.1, b.1);
    }
}

/// The seven-card scorers of the evaluators.
pub enum Scorer<'a> {
    /// Best hand value over the twenty-one subsets, packed as a code.
    Naive,
    /// Best sorting five-card code over the twenty-one subsets.
    Sorted,
    /// Best bucket-scanning five-card code over the twenty-one subsets.
    Buckets,
    /// Direct seven-card code.
    Direct,
    /// Lookup-table code.
    Table(&'a LutData),
}

impl<'a> Scorer<'a> {
    /// The code the scorer gives seven cards.
    pub open spec fn score(&self, s: Seq<Card>) -> int {
        match self {
            Scorer::Naive => value_code(best_value(s)),
            Scorer::Sorted => best21(s, eval5_fn()),
            Scorer::Buckets => best21(s, eval5_buckets_fn()),
            Scorer::Direct => eval7_spec(s),
            Scorer::Table(_) => lut_spec(s),
        }
    }

    /// What the scorer needs of its tables and of the seven cards: lookup tables must be
    /// valid, and without a flush no rank may occur more than four times.
    pub open spec fn ready(&self, s: Seq<Card>) -> bool {
        match self {
            Scorer::Table(lut) => lut.valid() && (flush_suit(suit_counts(s)) == 4 ==> forall|v: int|
                2 <= v < 15 ==> #[trigger] count_of(rank_values(s), v) <= 4),
            _ => true,
        }
    }

    /// Whether the scorer reads lookup tables.
    pub open spec fn uses_tables(&self) -> bool {
        self is Table
    }

    /// Scores seven cards.
    pub fn score_exec(&self, seven: &[Card; 7]) -> (r: u32)
        requires
            self.ready(seven@),
        ensures
            r == self.score(seven@),
            r < code_bound(),
    {
        match self {
            Scorer::Naive => {
                let best = best_hand(&seven[0..7]);
                proof {
                    assert(seven@.subrange(0, 7) =~= seven@);
                    lemma_best_value_unique(seven@, best.model());
                    lemma_value_entries(seven@, best.model());
                }
                best.code()
            },
            Scorer::Sorted => {
                let r = super::fast::best7(seven);
                proof {
                    lemma_best21_unique(seven@, eval5_fn(), r as int);
                    lemma_best21_bound_sorted(seven@, r as int);
                }
                r
            },
            Scorer::Buckets => {
                let r = super::sort_free::best7(seven);
                proof {
                    lemma_best21_unique(seven@, eval5_buckets_fn(), r as int);
                    lemma_best21_bound_buckets(seven@, r as int);
                }
                r
            },
            Scorer::Direct => {
                proof {
                    lemma_eval7_bound(seven@);
                }
                super::eval7::eval7(seven)
            },
            Scorer::Table(lut) => {
                proof {
                    lemma_lut_bound(seven@);
                }
                eval_lut(seven, lut)
            },
        }
    }
}

/// The value of five of the cards has a category at most 9 and tiebreak ranks in 2..=14, at
/// most five of them.
pub proof fn lemma_value_spec_bounds(c: Seq<Card>)
    requires
        c.len() == 5,
    ensures
        0 <= value_spec(c).0 <= 9,
        value_spec(c).1.len() <= 5,
        forall|i: int| 0 <= i < value_spec(c).1.len() ==> 2 <= #[trigger] value_spec(c).1[i] <= 14,
{
    lemma_sorted_values(c);
    let v = super::model::sorted_values(c);
    let f = freq_of(v);
    lemma_ordered_groups(f);
    lemma_count_freq_sum(v);
    let g = super::model::ordered_groups(f);
    assert forall|i: int| 0 <= i < super::naive::group_ranks(g).len() implies 2
        <= #[trigger] super::naive::group_ranks(g)[i] <= 14 by {
        assert(super::naive::group_ranks(g)[i] == g[i].0);
    }
}

/// The table of five values sums to five.
pub proof fn lemma_count_freq_sum(v: Seq<u8>)
    requires
        v.len() == 5,
        forall|i: int| 0 <= i < 5 ==> 2 <= #[trigger] v[i] <= 14,
    ensures
        fsum(freq_of(v), 2) == 5,
{
    lemma_fsum_freq(v, 2);
}

/// The count table of values in 2..=14 sums, from `lo` (at most 2) up, to their number.
pub proof fn lemma_fsum_freq(v: Seq<u8>, lo: int)
    requires
        0 <= lo <= 2,
        forall|i: int| 0 <= i < v.len() ==> 2 <= #[trigger] v[i] <= 14,
        v.len() < 200,
    ensures
        fsum(freq_of(v), lo) == v.len(),
    decreases v.len(),
{
    if v.len() == 0 {
        super::model::lemma_fsum_zero(freq_of(v), lo);
    } else {
        let w = v.drop_last();
        lemma_fsum_freq(w, lo);
        super::model::lemma_count_le_len(w, v.last() as int);
        super::model::lemma_freq_push(w, v.last());
        assert(w.push(v.last()) == v);
        super::model::lemma_fsum_update(freq_of(w), v.last() as int, (freq_of(w)[v.last() as int] + 1) as u8, lo);
    }
}

/// Entries of a best value are those of some five-card value.
pub proof fn lemma_value_entries(s: Seq<Card>, r: (int, Seq<u8>))
    requires
        is_best_value(s, r),
    ensures
        forall|i: int| 0 <= i < r.1.len() ==> #[trigger] r.1[i] <= 14,
        value_code(r) < code_bound(),
{
    let n = s.len() as int;
    let (a0, a1, a2, a3, a4) = choose|j0: int, j1: int, j2: int, j3: int, j4: int|
        combo_n(j0, j1, j2, j3, j4, n) && value_spec(#[trigger] pick5(s, j0, j1, j2, j3, j4)) == r;
    lemma_value_spec_bounds(pick5(s, a0, a1, a2, a3, a4));
}

/// Five-card codes stay below the bound.
pub proof fn lemma_eval5_bound(c: Seq<Card>)
    requires
        c.len() == 5,
    ensures
        0 <= eval5_spec(c) < code_bound(),
{
    lemma_sorted_values(c);
    let v = super::model::sorted_values(c);
    lemma_ordered_groups(freq_of(v));
}

/// Bucket-scanning codes stay below the bound.
pub proof fn lemma_buckets_bound(c: Seq<Card>)
    requires
        c.len() == 5,
    ensures
        0 <= eval5_buckets_spec(c) < code_bound(),
{
    let f = freq_of(rank_values(c));
    lemma_ranks_with(f, 4, 2);
    lemma_ranks_with(f, 3, 2);
    lemma_ranks_with(f, 2, 2);
    lemma_ranks_with(f, 1, 2);
    lemma_ranks_present(f, 2);
    lemma_straight_top_bound(f, 14);
}

/// The best sorting code is below the bound.
pub proof fn lemma_best21_bound_sorted(s: Seq<Card>, r: int)
    requires
        is_best_of_21(s, eval5_fn(), r),
    ensures
        r < code_bound(),
{
    let (a0, a1, a2, a3, a4) = choose|j0: int, j1: int, j2: int, j3: int, j4: int|
        combo5(j0, j1, j2, j3, j4) && eval5_fn()(#[trigger] pick5(s, j0, j1, j2, j3, j4)) == r;
    lemma_eval5_bound(pick5(s, a0, a1, a2, a3, a4));
}

/// The best bucket-scanning code is below the bound.
pub proof fn lemma_best21_bound_buckets(s: Seq<Card>, r: int)
    requires
        is_best_of_21(s, eval5_buckets_fn(), r),
    ensures
        r < code_bound(),
{
    let (a0, a1, a2, a3, a4) = choose|j0: int, j1: int, j2: int, j3: int, j4: int|
        combo5(j0, j1, j2, j3, j4) && eval5_buckets_fn()(#[trigger] pick5(s, j0, j1, j2, j3, j4))
            == r;
    lemma_buckets_bound(pick5(s, a0, a1, a2, a3, a4));
}

/// Flush codes of ranks in 2..=14 stay below the bound.
pub proof fn lemma_flush_code_bound(fv: Seq<u8>)
    requires
        fv.len() >= 5,
        forall|i: int| 0 <= i < fv.len() ==> #[trigger] fv[i] <= 14,
    ensures
        0 <= flush_code(fv) < code_bound(),
{
    lemma_first_run_bound(fv, 0);
}

/// A run start is an entry of the sequence, or 0.
pub proof fn lemma_first_run_bound(v: Seq<u8>, i: int)
    requires
        forall|k: int| 0 <= k < v.len() ==> #[trigger] v[k] <= 14,
    ensures
        0 <= first_run(v, i) <= 14,
    decreases v.len() - i,
{
    if i >= 0 && i + 5 <= v.len() && !super::model::run_from(v, i) {
        lemma_first_run_bound(v, i + 1);
    }
}

/// Direct seven-card codes stay below the bound.
pub proof fn lemma_eval7_bound(s: Seq<Card>)
    ensures
        0 <= eval7_spec(s) < code_bound(),
{
    let fs = flush_suit(suit_counts(s));
    if fs < 4 {
        let sr = suit_ranks(s, fs);
        lemma_suit_ranks(s, fs);
        lemma_sorted_ranks(sr);
        assert(sr.len() >= 5) by {
            if super::model::suit_count(s, fs) < 5 {
                assert(suit_counts(s)[fs] == super::model::suit_count(s, fs));
            }
        }
        lemma_flush_code_bound(sr.sort_by(desc_u8()));
    } else {
        lemma_non_flush_code_bound(freq_of(rank_values(s)));
        lemma_ordered_groups(freq_of(rank_values(s)));
        lemma_straight_top_bound(freq_of(rank_values(s)), 14);
    }
}

/// Lookup-table codes stay below the bound.
pub proof fn lemma_lut_bound(s: Seq<Card>)
    ensures
        0 <= lut_spec(s) < code_bound(),
{
    let fs = flush_suit(suit_counts(s));
    if fs < 4 {
        let m = super::lut::suit_mask(s, fs);
        lemma_mask_ranks(m, 0);
        if 5 <= mask_ranks(m, 0).len() <= 7 {
            lemma_flush_code_bound(mask_ranks(m, 0));
        }
    } else {
        lemma_non_flush_code_bound(freq_of(rank_values(s)));
        lemma_ordered_groups(freq_of(rank_values(s)));
        lemma_straight_top_bound(freq_of(rank_values(s)), 14);
    }
}

/// The list without its first entry, or the empty list.
pub open spec fn tail(a: Seq<u8>) -> Seq<u8> {
    if a.len() == 0 {
        a
    } else {
        a.drop_first()
    }
}

/// Lexicographic order on the first `l` entries, a missing entry reading as 0.
pub open spec fn padded_lt(a: Seq<u8>, b: Seq<u8>, l: nat) -> bool
    decreases l,
{
    if l == 0 {
        false
    } else if vat(a, 0) != vat(b, 0) {
        vat(a, 0) < vat(b, 0)
    } else {
        padded_lt(tail(a), tail(b), (l - 1) as nat)
    }
}

/// Whether the first `l` entries agree, a missing entry reading as 0.
pub open spec fn padded_eq(a: Seq<u8>, b: Seq<u8>, l: nat) -> bool
    decreases l,
{
    l == 0 || (vat(a, 0) == vat(b, 0) && padded_eq(tail(a), tail(b), (l - 1) as nat))
}

/// Rank lists of at most `l` positive entries compare as their zero-padded first `l` entries.
proof fn lemma_padded(a: Seq<u8>, b: Seq<u8>, l: nat)
    requires
        a.len() <= l,
        b.len() <= l,
        forall|i: int| 0 <= i < a.len() ==> #[trigger] a[i] >= 1,
        forall|i: int| 0 <= i < b.len() ==> #[trigger] b[i] >= 1,
    ensures
        seq_lt(a, b) <==> padded_lt(a, b, l),
        (a == b) <==> padded_eq(a, b, l),
    decreases l,
{
    if l == 0 {
        assert(a =~= b);
    } else {
        let ta = tail(a);
        let tb = tail(b);
        assert forall|i: int| 0 <= i < ta.len() implies #[trigger] ta[i] >= 1 by {
            assert(ta[i] == a[i + 1]);
        }
        assert forall|i: int| 0 <= i < tb.len() implies #[trigger] tb[i] >= 1 by {
            assert(tb[i] == b[i + 1]);
        }
        lemma_padded(ta, tb, (l - 1) as nat);
        if a.len() > 0 && b.len() > 0 {
            if a[0] == b[0] && ta == tb {
                assert(a =~= seq![a[0]] + ta);
                assert(b =~= seq![b[0]] + tb);
            }
        } else if a.len() == 0 && b.len() == 0 {
            assert(a =~= b);
        }
    }
}

/// The zero-padded comparison of five entries, spelled out.
proof fn lemma_padded5(a: Seq<u8>, b: Seq<u8>)
    ensures
        padded_lt(a, b, 5) <==> (vat(a, 0) < vat(b, 0) || (vat(a, 0) == vat(b, 0) && (vat(a, 1)
            < vat(b, 1) || (vat(a, 1) == vat(b, 1) && (vat(a, 2) < vat(b, 2) || (vat(a, 2) == vat(
            b,
            2,
        ) && (vat(a, 3) < vat(b, 3) || (vat(a, 3) == vat(b, 3) && vat(a, 4) < vat(b, 4))))))))),
        padded_eq(a, b, 5) <==> (vat(a, 0) == vat(b, 0) && vat(a, 1) == vat(b, 1) && vat(a, 2)
            == vat(b, 2) && vat(a, 3) == vat(b, 3) && vat(a, 4) == vat(b, 4)),
{
    reveal_with_fuel(padded_lt, 6);
    reveal_with_fuel(padded_eq, 6);
    let a1 = tail(a);
    let a2 = tail(a1);
    let a3 = tail(a2);
    let a4 = tail(a3);
    let b1 = tail(b);
    let b2 = tail(b1);
    let b3 = tail(b2);
    let b4 = tail(b3);
    assert(vat(a1, 0) == vat(a, 1) && vat(a2, 0) == vat(a, 2) && vat(a3, 0) == vat(a, 3) && vat(
        a4,
        0,
    ) == vat(a, 4));
    assert(vat(b1, 0) == vat(b, 1) && vat(b2, 0) == vat(b, 2) && vat(b3, 0) == vat(b, 3) && vat(
        b4,
        0,
    ) == vat(b, 4));
}

/// A hand value of at most five tiebreak ranks, each in 1..=15, with a category below 16.
pub open spec fn packable(m: (int, Seq<u8>)) -> bool {
    &&& 0 <= m.0 < 16
    &&& m.1.len() <= 5
    &&& forall|i: int| 0 <= i < m.1.len() ==> 1 <= #[trigger] m.1[i] < 16
}

/// Packing hand values keeps their order: one value beats another exactly when its code is
/// larger, and two values are equal exactly when their codes are.
pub proof fn lemma_value_code_order(a: (int, Seq<u8>), b: (int, Seq<u8>))
    requires
        packable(a),
        packable(b),
    ensures
        beats(a, b) <==> value_code(a) > value_code(b),
        (a == b) <==> value_code(a) == value_code(b),
{
    lemma_padded(b.1, a.1, 5);
    lemma_padded(a.1, b.1, 5);
    lemma_padded5(b.1, a.1);
    lemma_padded5(a.1, b.1);
    super::lemma_code_order(
        b.0,
        vat(b.1, 0),
        vat(b.1, 1),
        vat(b.1, 2),
        vat(b.1, 3),
        vat(b.1, 4),
        a.0,
        vat(a.1, 0),
        vat(a.1, 1),
        vat(a.1, 2),
        vat(a.1, 3),
        vat(a.1, 4),
    );
    super::lemma_code_order(
        a.0,
        vat(a.1, 0),
        vat(a.1, 1),
        vat(a.1, 2),
        vat(a.1, 3),
        vat(a.1, 4),
        b.0,
        vat(b.1, 0),
        vat(b.1, 1),
        vat(b.1, 2),
        vat(b.1, 3),
        vat(b.1, 4),
    );
}

/// Every five-card hand value can be packed.
pub proof fn lemma_value_packable(c: Seq<Card>)
    requires
        c.len() == 5,
    ensures
        packable(value_spec(c)),
{
    lemma_value_spec_bounds(c);
}

/// A best hand value of some five of the cards can be packed.
pub proof fn lemma_best_value_packable(s: Seq<Card>, r: (int, Seq<u8>))
    requires
        is_best_value(s, r),
    ensures
        packable(r),
{
    let n = s.len() as int;
    let (a0, a1, a2, a3, a4) = choose|j0: int, j1: int, j2: int, j3: int, j4: int|
        combo_n(j0, j1, j2, j3, j4, n) && value_spec(#[trigger] pick5(s, j0, j1, j2, j3, j4)) == r;
    lemma_value_spec_bounds(pick5(s, a0, a1, a2, a3, a4));
}

/// Comparing two players' best hand values is comparing their codes: one best value beats
/// another exactly when its code is larger, and they tie exactly when the codes are equal.
pub proof fn lemma_best_value_order(s: Seq<Card>, t: Seq<Card>, a: (int, Seq<u8>), b: (int, Seq<u8>))
    requires
        is_best_value(s, a),
        is_best_value(t, b),
    ensures
        beats(a, b) <==> value_code(a) > value_code(b),
        (a == b) <==> value_code(a) == value_code(b),
{
    lemma_best_value_packable(s, a);
    lemma_best_value_packable(t, b);
    lemma_value_code_order(a, b);
}

} // verus!
