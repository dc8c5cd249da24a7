//! Reference evaluator: a hand value is a category and a list of tiebreak ranks, compared
//! lexicographically; the best hand is the best value over all five-card subsets.

use vstd::prelude::*;
use super::Condition;
use super::rng::Rng;
use super::score::Scorer;
use super::sim::{condition_slots, dealable, run_condition, start_state, Shuffle, SimTally};
use crate::card::{Card, Rank};
use super::model::{
    flush5, freq_of, gat, groups_bot, lemma_groups_bot_sorted, lemma_groups_bot_top,
    lemma_groups_top_len, lemma_ordered_groups, lemma_sorted_values, ordered_groups,
    rank_values, sorted_values, straight5, wheel5, groups_top, fsum, lex_lt5, pick5,
};
use super::sort::{desc_u8, sort_desc, sort_groups};
use super::fast::count_ranks5;

verus! {

/// Value of a rank: Two is 2, Ace is 14.
pub fn rank_val(r: Rank) -> (v: u8)
    ensures
        v == r.value(),
{
    match r {
        Rank::Two => 2,
        Rank::Three => 3,
        Rank::Four => 4,
        Rank::Five => 5,
        Rank::Six => 6,
        Rank::Seven => 7,
        Rank::Eight => 8,
        Rank::Nine => 9,
        Rank::Ten => 10,
        Rank::Jack => 11,
        Rank::Queen => 12,
        Rank::King => 13,
        Rank::Ace => 14,
    }
}

/// Hand categories, weakest first.
#[derive(Clone, Copy, PartialEq, Eq, Structural, PartialOrd, Ord, Debug)]
pub enum HandCategory {
    HighCard,
    Pair,
    TwoPair,
    ThreeKind,
    Straight,
    Flush,
    FullHouse,
    FourKind,
    StraightFlush,
    RoyalFlush,
}

impl HandCategory {
    /// Strength of the category, 0 for a high card up to 9 for a royal flush.
    pub open spec fn level(self) -> int {
        match self {
            HandCategory::HighCard => 0,
            HandCategory::Pair => 1,
            HandCategory::TwoPair => 2,
            HandCategory::ThreeKind => 3,
            HandCategory::Straight => 4,
            HandCategory::Flush => 5,
            HandCategory::FullHouse => 6,
            HandCategory::FourKind => 7,
            HandCategory::StraightFlush => 8,
            HandCategory::RoyalFlush => 9,
        }
    }

    /// Strength of the category as a byte.
    pub fn level_exec(self) -> (l: u8)
        ensures
            l == self.level(),
    {
        match self {
            HandCategory::HighCard => 0,
            HandCategory::Pair => 1,
            HandCategory::TwoPair => 2,
            HandCategory::ThreeKind => 3,
            HandCategory::Straight => 4,
            HandCategory::Flush => 5,
            HandCategory::FullHouse => 6,
            HandCategory::FourKind => 7,
            HandCategory::StraightFlush => 8,
            HandCategory::RoyalFlush => 9,
        }
    }
}

/// A hand value: its category and its tiebreak ranks in order of importance.
#[derive(Clone, Debug)]
pub struct HandValue {
    pub category: HandCategory,
    pub tiebreak: Vec<u8>,
}

/// Lexicographic order on rank lists, as on vectors: `a` comes before `b`.
pub open spec fn seq_lt(a: Seq<u8>, b: Seq<u8>) -> bool
    decreases a.len(),
{
    if a.len() == 0 {
        b.len() > 0
    } else if b.len() == 0 {
        false
    } else if a[0] != b[0] {
        a[0] < b[0]
    } else {
        seq_lt(a.drop_first(), b.drop_first())
    }
}

/// Hand value `a` beats hand value `b`: higher category, or the same category and larger
/// tiebreak list.
pub open spec fn beats(a: (int, Seq<u8>), b: (int, Seq<u8>)) -> bool {
    a.0 > b.0 || (a.0 == b.0 && seq_lt(b.1, a.1))
}

impl HandValue {
    /// The value as a category level and a rank list.
    pub open spec fn model(&self) -> (int, Seq<u8>) {
        (self.category.level(), self.tiebreak@)
    }

    /// Whether this value beats `other`.
    pub fn beats(&self, other: &HandValue) -> (r: bool)
        ensures
            r == beats(self.model(), other.model()),
    {
        let a = self.category.level_exec();
        let b = other.category.level_exec();
        if a != b {
            return a > b;
        }
        seq_less(&other.tiebreak, &self.tiebreak)
    }

    /// The value packed as a hand code: its category, then its first five tiebreak ranks
    /// (missing ones as 0).
    pub fn code(&self) -> (c: u32)
        requires
            forall|i: int| 0 <= i < self.tiebreak@.len() ==> #[trigger] self.tiebreak@[i] <= 14,
        ensures
            c == super::code_of(
                self.category.level(),
                super::model::vat(self.tiebreak@, 0),
                super::model::vat(self.tiebreak@, 1),
                super::model::vat(self.tiebreak@, 2),
                super::model::vat(self.tiebreak@, 3),
                super::model::vat(self.tiebreak@, 4),
            ),
    {
        let n = self.tiebreak.len();
        let t0 = if n > 0 { self.tiebreak[0] } else { 0 };
        let t1 = if n > 1 { self.tiebreak[1] } else { 0 };
        let t2 = if n > 2 { self.tiebreak[2] } else { 0 };
        let t3 = if n > 3 { self.tiebreak[3] } else { 0 };
        let t4 = if n > 4 { self.tiebreak[4] } else { 0 };
        super::pack(self.category.level_exec(), t0, t1, t2, t3, t4)
    }

    /// Whether this value equals `other`.
    pub fn same(&self, other: &HandValue) -> (r: bool)
        ensures
            r == (self.model() == other.model()),
    {
        let a = self.category.level_exec();
        let b = other.category.level_exec();
        if a != b {
            return false;
        }
        if self.tiebreak.len() != other.tiebreak.len() {
            return false;
        }
        let mut i: usize = 0;
        while i < self.tiebreak.len()
            invariant
                i <= self.tiebreak@.len(),
                self.tiebreak@.len() == other.tiebreak@.len(),
                forall|j: int| 0 <= j < i ==> self.tiebreak@[j] == other.tiebreak@[j],
            decreases self.tiebreak@.len() - i,
        {
            if self.tiebreak[i] != other.tiebreak[i] {
                return false;
            }
            i = i + 1;
        }
        assert(self.tiebreak@ =~= other.tiebreak@);
        true
    }
}

/// Whether rank list `a` comes before rank list `b` lexicographically.
pub fn seq_less(a: &Vec<u8>, b: &Vec<u8>) -> (r: bool)
    ensures
        r == seq_lt(a@, b@),
{
    let mut i: usize = 0;
    assert(a@.skip(0) =~= a@);
    assert(b@.skip(0) =~= b@);
    while i < a.len() && i < b.len()
        invariant
            i <= a@.len(),
            i <= b@.len(),
            forall|j: int| 0 <= j < i ==> a@[j] == b@[j],
            seq_lt(a@, b@) == seq_lt(a@.skip(i as int), b@.skip(i as int)),
        decreases a@.len() - i,
    {
        if a[i] != b[i] {
            return a[i] < b[i];
        }
        proof {
            assert(a@.skip(i as int).drop_first() =~= a@.skip(i + 1));
            assert(b@.skip(i as int).drop_first() =~= b@.skip(i + 1));
        }
        i = i + 1;
    }
    i == a.len() && i < b.len()
}

/// Lexicographic order on rank lists is transitive.
pub proof fn lemma_seq_lt_trans(a: Seq<u8>, b: Seq<u8>, c: Seq<u8>)
    requires
        seq_lt(a, b),
        seq_lt(b, c),
    ensures
        seq_lt(a, c),
    decreases a.len(),
{
    if a.len() > 0 && b.len() > 0 && c.len() > 0 && a[0] == b[0] && b[0] == c[0] {
        lemma_seq_lt_trans(a.drop_first(), b.drop_first(), c.drop_first());
    }
}

/// No rank list comes before itself.
pub proof fn lemma_seq_lt_irrefl(a: Seq<u8>)
    ensures
        !seq_lt(a, a),
    decreases a.len(),
{
    if a.len() > 0 {
        lemma_seq_lt_irrefl(a.drop_first());
    }
}

/// Beating is transitive.
pub proof fn lemma_beats_trans(a: (int, Seq<u8>), b: (int, Seq<u8>), c: (int, Seq<u8>))
    requires
        beats(a, b),
        beats(b, c),
    ensures
        beats(a, c),
{
    if a.0 == b.0 && b.0 == c.0 {
        lemma_seq_lt_trans(c.1, b.1, a.1);
    }
}

/// The rank of each group, in group order.
pub open spec fn group_ranks(g: Seq<(u8, u8)>) -> Seq<u8> {
    g.map_values(|e: (u8, u8)| e.0)
}

/// The value of five cards: straight flushes (royal when Ace-high), four of a kind, full house,
/// flush, straight (the wheel counting Five-high), three of a kind, two pair, pair, high card;
/// groups of equal rank break ties, larger group and higher rank first, and flushes and high
/// cards compare all five ranks.
pub open spec fn value_spec(cards: Seq<Card>) -> (int, Seq<u8>) {
    let v = sorted_values(cards);
    let fl = flush5(cards);
    let st = straight5(v);
    let wh = wheel5(v);
    let g = ordered_groups(freq_of(v));
    let tb = group_ranks(g);
    let f0 = gat(g, 0).1;
    let f1 = gat(g, 1).1;
    if fl && (st || wh) {
        if v[0] == 14 && !wh {
            (9, Seq::empty())
        } else {
            (8, seq![if wh { 5u8 } else { v[0] }])
        }
    } else if f0 == 4 {
        (7, tb)
    } else if f0 == 3 && f1 == 2 {
        (6, tb)
    } else if fl {
        (5, v)
    } else if st {
        (4, seq![v[0]])
    } else if wh {
        (4, seq![5u8])
    } else if f0 == 3 {
        (3, tb)
    } else if f0 == 2 && f1 == 2 {
        (2, tb)
    } else if f0 == 2 {
        (1, tb)
    } else {
        (0, v)
    }
}

fn one_rank(r: u8) -> (v: Vec<u8>)
    ensures
        v@ == seq![r],
{
    let mut v: Vec<u8> = Vec::new();
    v.push(r);
    v
}

fn hand(category: HandCategory, tiebreak: Vec<u8>) -> (h: HandValue)
    ensures
        h.category == category,
        h.tiebreak@ == tiebreak@,
{
    HandValue { category, tiebreak }
}

/// Evaluates exactly five cards.
pub fn evaluate_five(cards: [Card; 5]) -> (hv: HandValue)
    ensures
        hv.model() == value_spec(cards@),
{
    let mut v = [0u8; 5];
    let mut i: usize = 0;
    while i < 5
        invariant
            i <= 5,
            forall|k: int| 0 <= k < i ==> v@[k] == rank_values(cards@)[k],
        decreases 5 - i,
    {
        v[i] = rank_val(cards[i].rank);
        i = i + 1;
    }
    assert(v@ =~= rank_values(cards@));
    sort_desc(&mut v, 5);
    proof {
        assert(v@ =~= v@.subrange(0, 5));
        assert(rank_values(cards@) =~= rank_values(cards@).subrange(0, 5));
        lemma_sorted_values(cards@);
        assert(v@ == sorted_values(cards@));
    }
    let mut vals: Vec<u8> = Vec::new();
    let mut k: usize = 0;
    while k < 5
        invariant
            k <= 5,
            vals@ == v@.take(k as int),
        decreases 5 - k,
    {
        vals.push(v[k]);
        proof {
            assert(vals@ =~= v@.take(k + 1));
        }
        k = k + 1;
    }
    assert(vals@ =~= v@);

    let c0 = cards[0].suit;
    let is_flush = cards[1].suit == c0 && cards[2].suit == c0 && cards[3].suit == c0
        && cards[4].suit == c0;
    let is_straight = v[0] == v[1] + 1 && v[1] == v[2] + 1 && v[2] == v[3] + 1 && v[3] == v[4]
        + 1;
    let is_wheel = v[0] == 14 && v[1] == 5 && v[2] == 4 && v[3] == 3 && v[4] == 2;

    let freq = count_ranks5(&v);
    let mut counts = [(0u8, 0u8); 5];
    let mut nc: usize = 0;
    let mut r: u8 = 2;
    proof {
        lemma_groups_top_len(freq@, 2);
    }
    while r <= 14
        invariant
            2 <= r <= 15,
            nc <= 5,
            fsum(freq@, 2) == 5,
            groups_top(freq@, 2).len() <= 5,
            counts@.subrange(0, nc as int) == groups_bot(freq@, r - 1),
            forall|j: int| nc <= j < 5 ==> counts@[j] == (0u8, 0u8),
        decreases 15 - r,
    {
        let ghost before = counts@;
        proof {
            broadcast use vstd::seq_lib::group_to_multiset_ensures;
            broadcast use vstd::multiset::group_multiset_axioms;

            lemma_groups_bot_top(freq@, r as int);
            let b = groups_bot(freq@, r as int);
            let t = groups_top(freq@, r + 1);
            assert(b.to_multiset().add(t.to_multiset()).len() == b.to_multiset().len()
                + t.to_multiset().len());
            assert(b.len() <= 5);
            assert(groups_bot(freq@, r as int) == groups_bot(freq@, r - 1)
                + super::model::group_at(freq@, r as int));
        }
        if freq[r as usize] > 0 {
            counts[nc] = (r, freq[r as usize]);
            nc = nc + 1;
            proof {
                assert(counts@.subrange(0, nc as int) =~= before.subrange(0, nc - 1) + seq![
                    (r, freq@[r as int]),
                ]);
            }
        }
        proof {
            assert(counts@.subrange(0, nc as int) =~= groups_bot(freq@, r as int));
        }
        r = r + 1;
    }
    sort_groups(&mut counts, nc);
    let ghost g = ordered_groups(freq@);
    proof {
        lemma_groups_bot_sorted(freq@);
        lemma_ordered_groups(freq@);
        assert(counts@.subrange(0, nc as int) == g);
        assert forall|k: int| 0 <= k < 5 implies counts@[k] == gat(g, k) by {
            if k < nc {
                assert(counts@[k] == counts@.subrange(0, nc as int)[k]);
            } else {
                assert(counts@[k] == counts@.subrange(nc as int, 5)[k - nc]);
            }
        }
    }
    let mut tb_ranks: Vec<u8> = Vec::new();
    let mut k: usize = 0;
    while k < nc
        invariant
            k <= nc <= 5,
            counts@.subrange(0, nc as int) == g,
            tb_ranks@ == group_ranks(g).take(k as int),
        decreases nc - k,
    {
        tb_ranks.push(counts[k].0);
        proof {
            assert(counts@[k as int] == g[k as int]);
            assert(tb_ranks@ =~= group_ranks(g).take(k + 1));
        }
        k = k + 1;
    }
    assert(tb_ranks@ =~= group_ranks(g));

    if is_flush && (is_straight || is_wheel) {
        return if v[0] == 14 && !is_wheel {
            hand(HandCategory::RoyalFlush, Vec::new())
        } else {
            let top = if is_wheel {
                5
            } else {
                v[0]
            };
            hand(HandCategory::StraightFlush, one_rank(top))
        };
    }
    if counts[0].1 == 4 {
        return hand(HandCategory::FourKind, tb_ranks);
    }
    if counts[0].1 == 3 && counts[1].1 == 2 {
        return hand(HandCategory::FullHouse, tb_ranks);
    }
    if is_flush {
        return hand(HandCategory::Flush, vals);
    }
    if is_straight {
        return hand(HandCategory::Straight, one_rank(v[0]));
    }
    if is_wheel {
        return hand(HandCategory::Straight, one_rank(5));
    }
    if counts[0].1 == 3 {
        return hand(HandCategory::ThreeKind, tb_ranks);
    }
    if counts[0].1 == 2 && counts[1].1 == 2 {
        return hand(HandCategory::TwoPair, tb_ranks);
    }
    if counts[0].1 == 2 {
        return hand(HandCategory::Pair, tb_ranks);
    }
    hand(HandCategory::HighCard, vals)
}

/// Indices of a five-card subset of `n` cards, in increasing order.
pub open spec fn combo_n(j0: int, j1: int, j2: int, j3: int, j4: int, n: int) -> bool {
    0 <= j0 < j1 < j2 < j3 < j4 < n
}

/// `r` is a best value over the five-card subsets of `cards`: no subset beats it and some
/// subset has it.
pub open spec fn is_best_value(cards: Seq<Card>, r: (int, Seq<u8>)) -> bool {
    &&& forall|j0: int, j1: int, j2: int, j3: int, j4: int|
        combo_n(j0, j1, j2, j3, j4, cards.len() as int) ==> !beats(
            value_spec(#[trigger] pick5(cards, j0, j1, j2, j3, j4)),
            r,
        )
    &&& exists|j0: int, j1: int, j2: int, j3: int, j4: int|
        combo_n(j0, j1, j2, j3, j4, cards.len() as int) && value_spec(
            #[trigger] pick5(cards, j0, j1, j2, j3, j4),
        ) == r
}

/// The best value over all five-card subsets of five to seven cards.
pub fn best_hand(cards: &[Card]) -> (best: HandValue)
    requires
        5 <= cards@.len() <= 7,
    ensures
        is_best_value(cards@, best.model()),
{
    let n = cards.len();
    let ghost s = cards@;
    let first = [cards[0], cards[1], cards[2], cards[3], cards[4]];
    assert(first@ =~= pick5(s, 0, 1, 2, 3, 4));
    let mut best = evaluate_five(first);
    let ghost mut w: (int, int, int, int, int) = (0, 1, 2, 3, 4);
    let mut i0: usize = 0;
    while i0 < n - 4
        invariant
            i0 <= n - 4,
            s == cards@,
            n == cards@.len(),
            5 <= n <= 7,
            forall|j0: int, j1: int, j2: int, j3: int, j4: int|
                combo_n(j0, j1, j2, j3, j4, n as int) && lex_lt5(j0, j1, j2, j3, j4, i0 as int, 0, 0, 0, 0)
                    ==> !beats(value_spec(#[trigger] pick5(s, j0, j1, j2, j3, j4)), best.model()),
            combo_n(w.0, w.1, w.2, w.3, w.4, n as int),
            value_spec(pick5(s, w.0, w.1, w.2, w.3, w.4)) == best.model(),
        decreases n - 4 - i0,
    {
        let mut i1: usize = i0 + 1;
        while i1 < n - 3
            invariant
                i0 < n - 4,
                i0 + 1 <= i1 <= n - 3,
                s == cards@,
                n == cards@.len(),
                5 <= n <= 7,
                forall|j0: int, j1: int, j2: int, j3: int, j4: int|
                    combo_n(j0, j1, j2, j3, j4, n as int) && lex_lt5(j0, j1, j2, j3, j4, i0 as int, i1 as int, 0, 0, 0)
                        ==> !beats(value_spec(#[trigger] pick5(s, j0, j1, j2, j3, j4)), best.model()),
                combo_n(w.0, w.1, w.2, w.3, w.4, n as int),
                value_spec(pick5(s, w.0, w.1, w.2, w.3, w.4)) == best.model(),
            decreases n - 3 - i1,
        {
            let mut i2: usize = i1 + 1;
            while i2 < n - 2
                invariant
                    i0 < i1 < n - 3,
                    i1 + 1 <= i2 <= n - 2,
                    s == cards@,
                    n == cards@.len(),
                    5 <= n <= 7,
                    forall|j0: int, j1: int, j2: int, j3: int, j4: int|
                        combo_n(j0, j1, j2, j3, j4, n as int) && lex_lt5(j0, j1, j2, j3, j4, i0 as int, i1 as int, i2 as int, 0, 0)
                            ==> !beats(value_spec(#[trigger] pick5(s, j0, j1, j2, j3, j4)), best.model()),
                    combo_n(w.0, w.1, w.2, w.3, w.4, n as int),
                    value_spec(pick5(s, w.0, w.1, w.2, w.3, w.4)) == best.model(),
                decreases n - 2 - i2,
            {
                let mut i3: usize = i2 + 1;
                while i3 < n - 1
                    invariant
                        i0 < i1 < i2 < n - 2,
                        i2 + 1 <= i3 <= n - 1,
                        s == cards@,
                        n == cards@.len(),
                        5 <= n <= 7,
                        forall|j0: int, j1: int, j2: int, j3: int, j4: int|
                            combo_n(j0, j1, j2, j3, j4, n as int) && lex_lt5(j0, j1, j2, j3, j4, i0 as int, i1 as int, i2 as int, i3 as int, 0)
                                ==> !beats(value_spec(#[trigger] pick5(s, j0, j1, j2, j3, j4)), best.model()),
                        combo_n(w.0, w.1, w.2, w.3, w.4, n as int),
                        value_spec(pick5(s, w.0, w.1, w.2, w.3, w.4)) == best.model(),
                    decreases n - 1 - i3,
                {
                    let mut i4: usize = i3 + 1;
                    while i4 < n
                        invariant
                            i0 < i1 < i2 < i3 < n - 1,
                            i3 + 1 <= i4 <= n,
                            s == cards@,
                            n == cards@.len(),
                            5 <= n <= 7,
                            forall|j0: int, j1: int, j2: int, j3: int, j4: int|
                                combo_n(j0, j1, j2, j3, j4, n as int) && lex_lt5(j0, j1, j2, j3, j4, i0 as int, i1 as int, i2 as int, i3 as int, i4 as int)
                                    ==> !beats(value_spec(#[trigger] pick5(s, j0, j1, j2, j3, j4)), best.model()),
                            combo_n(w.0, w.1, w.2, w.3, w.4, n as int),
                            value_spec(pick5(s, w.0, w.1, w.2, w.3, w.4)) == best.model(),
                        decreases n - i4,
                    {
                        let five = [cards[i0], cards[i1], cards[i2], cards[i3], cards[i4]];
                        proof {
                            assert(five@ =~= pick5(
                                s,
                                i0 as int,
                                i1 as int,
                                i2 as int,
                                i3 as int,
                                i4 as int,
                            ));
                        }
                        let val = evaluate_five(five);
                        if val.beats(&best) {
                            proof {
                                let old_best = best.model();
                                assert forall|j0: int, j1: int, j2: int, j3: int, j4: int|
                                    combo_n(j0, j1, j2, j3, j4, n as int) && lex_lt5(
                                        j0,
                                        j1,
                                        j2,
                                        j3,
                                        j4,
                                        i0 as int,
                                        i1 as int,
                                        i2 as int,
                                        i3 as int,
                                        i4 as int,
                                    ) implies !beats(
                                    value_spec(#[trigger] pick5(s, j0, j1, j2, j3, j4)),
                                    val.model(),
                                ) by {
                                    if beats(value_spec(pick5(s, j0, j1, j2, j3, j4)), val.model()) {
                                        lemma_beats_trans(
                                            value_spec(pick5(s, j0, j1, j2, j3, j4)),
                                            val.model(),
                                            old_best,
                                        );
                                    }
                                }
                                w = (i0 as int, i1 as int, i2 as int, i3 as int, i4 as int);
                                lemma_seq_lt_irrefl(val.tiebreak@);
                            }
                            best = val;
                        }
                        i4 = i4 + 1;
                    }
                    i3 = i3 + 1;
                }
                i2 = i2 + 1;
            }
            i1 = i1 + 1;
        }
        i0 = i0 + 1;
    }
    best
}

/// Evaluator that scores seven cards as the best hand value of their five-card subsets, and
/// shuffles the whole deck before each deal.
pub struct NaiveEvaluator;

impl NaiveEvaluator {
    /// Plays the condition's deals from `seed` (full shuffle, best hand value of the five-card subsets) and counts, per player, the deals
    /// won and with how many others, and the hand categories.
    pub fn run(&self, condition: &Condition, seed: u64) -> (t: SimTally)
        requires
            condition.players@.len() * condition.players@.len() <= usize::MAX,
            2 * condition.players@.len() + 5 <= usize::MAX,
            dealable(condition),
        ensures
            t.counts(
                Scorer::Naive,
                Shuffle::Full,
                condition_slots(condition),
                start_state(seed),
                condition.iterations as nat,
            ),
            t.balanced(condition.iterations as int),
    {
        let mut rng = Rng::from_seed(seed);
        run_condition(&Scorer::Naive, Shuffle::Full, condition, &mut rng)
    }
}

/// Mapping two sequences with the same entries gives sequences with the same entries.
pub proof fn lemma_map_multiset<A, B>(a: Seq<A>, b: Seq<A>, f: spec_fn(A) -> B)
    requires
        a.to_multiset() == b.to_multiset(),
    ensures
        a.map_values(f).to_multiset() == b.map_values(f).to_multiset(),
    decreases a.len(),
{
    broadcast use vstd::seq_lib::group_to_multiset_ensures;
    broadcast use vstd::multiset::group_multiset_axioms;

    a.to_multiset_ensures();
    b.to_multiset_ensures();
    assert(a.len() == b.len());
    if a.len() == 0 {
        assert(a.map_values(f) =~= b.map_values(f));
    } else {
        let x = a.last();
        let a1 = a.drop_last();
        assert(a1.push(x) =~= a);
        assert(b.to_multiset().count(x) > 0);
        assert(b.contains(x));
        let j = choose|j: int| 0 <= j < b.len() && b[j] == x;
        let b1 = b.remove(j);
        assert(a1.to_multiset() =~= b1.to_multiset()) by {
            assert(a.to_multiset() =~= a1.to_multiset().insert(x));
            assert(b1.to_multiset() =~= b.to_multiset().remove(x));
        }
        lemma_map_multiset(a1, b1, f);
        let bm = b.map_values(f);
        assert(bm.remove(j) =~= b1.map_values(f));
        assert(bm.remove(j).to_multiset() =~= bm.to_multiset().remove(f(x)));
        assert(a1.map_values(f).push(f(x)) =~= a.map_values(f));
        assert(bm.to_multiset().count(f(x)) > 0) by {
            assert(bm[j] == f(x));
            assert(bm.contains(f(x)));
        }
        assert(a.map_values(f).to_multiset() =~= bm.to_multiset());
    }
}

/// The value of five cards depends only on which cards they are, not on their order.
pub proof fn lemma_value_order_free(c: Seq<Card>, p: Seq<Card>)
    requires
        c.len() == 5,
        p.to_multiset() == c.to_multiset(),
    ensures
        value_spec(p) == value_spec(c),
{
    broadcast use vstd::seq_lib::group_to_multiset_ensures;

    p.to_multiset_ensures();
    c.to_multiset_ensures();
    assert(p.len() == 5);
    let f = |x: Card| x.rank.value() as u8;
    lemma_map_multiset(p, c, f);
    assert(rank_values(p) == p.map_values(f));
    assert(rank_values(c) == c.map_values(f));
    super::sort::lemma_desc_u8_total();
    rank_values(p).lemma_sort_by_ensures(desc_u8());
    rank_values(c).lemma_sort_by_ensures(desc_u8());
    vstd::seq_lib::lemma_sorted_unique(sorted_values(p), sorted_values(c), desc_u8());
    assert forall|i: int| 0 <= i < 5 implies c.contains(#[trigger] p[i]) by {
        assert(p.contains(p[i]));
        assert(p.to_multiset().count(p[i]) > 0);
    }
    assert forall|i: int| 0 <= i < 5 implies p.contains(#[trigger] c[i]) by {
        assert(c.contains(c[i]));
        assert(c.to_multiset().count(c[i]) > 0);
    }
    if flush5(c) {
        assert forall|i: int| 0 <= i < 5 implies #[trigger] p[i].suit == c[0].suit by {
            let j = choose|j: int| 0 <= j < 5 && c[j] == p[i];
        }
    }
    if flush5(p) {
        assert forall|i: int| 0 <= i < 5 implies #[trigger] c[i].suit == p[0].suit by {
            let j = choose|j: int| 0 <= j < 5 && p[j] == c[i];
        }
    }
}

} // verus!
