//! Allocation-free evaluator: each five-card subset of a seven-card hand is scored with two
//! short sorts, and the best of the twenty-one scores is kept.

use vstd::prelude::*;
use super::{Condition, MAX_PLAYERS};
use super::rng::Rng;
use super::score::Scorer;
use super::sim::{condition_slots, lemma_few_players, dealable, run_condition, start_state, Shuffle, SimTally};
use crate::card::Card;
use super::{
    code_of, pack, FLUSH, FOUR_KIND, FULL_HOUSE, HIGH_CARD, PAIR, ROYAL_FLUSH, STRAIGHT,
    STR_FLUSH, THREE_KIND, TWO_PAIR,
};
use super::model::{
    combo5, eval5_buckets_fn, eval5_fn, is_best_of_21, lex_lt5, pick5,
    eval5_spec, fsum, freq_of, gat, groups_top, lemma_count_le_len, lemma_freq_push,
    lemma_fsum_mono, lemma_fsum_update, lemma_fsum_zero, lemma_ordered_groups,
    lemma_sorted_values, ordered_groups, rank_values, sorted_values,
};
use super::sort::{sort_desc, sort_groups};

verus! {

/// Builds the count table of five descending rank values.
pub fn count_ranks5(v: &[u8; 5]) -> (freq: [u8; 15])
    requires
        forall|i: int| 0 <= i < 5 ==> 2 <= #[trigger] v@[i] <= 14,
    ensures
        freq@ == freq_of(v@),
        fsum(freq@, 2) == 5,
{
    let mut freq = [0u8; 15];
    proof {
        assert(freq_of(v@.take(0)) =~= freq@);
        lemma_fsum_zero(freq@, 2);
    }
    let mut k: usize = 0;
    while k < 5
        invariant
            k <= 5,
            forall|i: int| 0 <= i < 5 ==> 2 <= #[trigger] v@[i] <= 14,
            freq@ == freq_of(v@.take(k as int)),
            fsum(freq@, 2) == k,
        decreases 5 - k,
    {
        let r = v[k] as usize;
        proof {
            lemma_count_le_len(v@.take(k as int), r as int);
            lemma_freq_push(v@.take(k as int), v@[k as int]);
            assert(v@.take(k as int).push(v@[k as int]) == v@.take(k + 1));
            lemma_fsum_update(freq@, r as int, (freq@[r as int] + 1) as u8, 2);
        }
        freq[r] = freq[r] + 1;
        k = k + 1;
    }
    assert(v@.take(5) == v@);
    freq
}

/// Collects the (rank, count) groups of a count table from Ace down to Two.
pub fn collect_groups5(freq: &[u8; 15]) -> (res: ([(u8, u8); 5], usize))
    requires
        fsum(freq@, 2) == 5,
    ensures
        res.1 <= 5,
        res.0@.subrange(0, res.1 as int) == groups_top(freq@, 2),
        forall|j: int| res.1 <= j < 5 ==> res.0@[j] == (0u8, 0u8),
{
    let mut cnt = [(0u8, 0u8); 5];
    let mut nc: usize = 0;
    let mut r: u8 = 14;
    while r >= 2
        invariant
            1 <= r <= 14,
            nc <= 5,
            fsum(freq@, 2) == 5,
            cnt@.subrange(0, nc as int) == groups_top(freq@, r + 1),
            forall|j: int| nc <= j < 5 ==> cnt@[j] == (0u8, 0u8),
            nc <= fsum(freq@, r + 1),
        decreases r,
    {
        let ghost before = cnt@;
        if freq[r as usize] > 0 {
            proof {
                lemma_fsum_mono(freq@, 2, r as int);
            }
            cnt[nc] = (r, freq[r as usize]);
            nc = nc + 1;
            proof {
                assert(cnt@.subrange(0, nc as int) =~= before.subrange(0, nc - 1) + seq![
                    (r, freq@[r as int]),
                ]);
            }
        }
        proof {
            assert(groups_top(freq@, r as int) == groups_top(freq@, r + 1) + super::model::group_at(
                freq@,
                r as int,
            ));
            assert(cnt@.subrange(0, nc as int) =~= groups_top(freq@, r as int));
        }
        r = r - 1;
    }
    (cnt, nc)
}

/// Scores exactly five cards: the packed code of their hand value.
pub fn eval5(cards: [Card; 5]) -> (r: u32)
    ensures
        r == eval5_spec(cards@),
        r == super::score::value_code(super::naive::value_spec(cards@)),
{
    proof {
        super::agree::lemma_value_code_agrees(cards@);
    }
    let mut v = [0u8; 5];
    let mut i: usize = 0;
    while i < 5
        invariant
            i <= 5,
            forall|k: int| 0 <= k < i ==> v@[k] == rank_values(cards@)[k],
        decreases 5 - i,
    {
        v[i] = cards[i].rank.idx();
        i = i + 1;
    }
    assert(v@ =~= rank_values(cards@));
    sort_desc(&mut v, 5);
    proof {
        assert(v@ =~= v@.subrange(0, 5));
        assert(rank_values(cards@) =~= rank_values(cards@).subrange(0, 5));
        lemma_sorted_values(cards@);
        assert(v@ == sorted_values(cards@));
    }
    let is_flush = cards[0].suit == cards[1].suit && cards[1].suit == cards[2].suit && cards[2].suit
        == cards[3].suit && cards[3].suit == cards[4].suit;
    let is_straight = v[0] == v[1] + 1 && v[1] == v[2] + 1 && v[2] == v[3] + 1 && v[3] == v[4]
        + 1;
    let is_wheel = v[0] == 14 && v[1] == 5 && v[2] == 4 && v[3] == 3 && v[4] == 2;

    if is_flush && (is_straight || is_wheel) {
        return if v[0] == 14 && !is_wheel {
            pack(ROYAL_FLUSH, 0, 0, 0, 0, 0)
        } else {
            let top = if is_wheel {
                5
            } else {
                v[0]
            };
            pack(STR_FLUSH, top, 0, 0, 0, 0)
        };
    }
    let freq = count_ranks5(&v);
    let (mut cnt, nc) = collect_groups5(&freq);
    sort_groups(&mut cnt, nc);
    proof {
        lemma_ordered_groups(freq@);
        let g = ordered_groups(freq@);
        assert(cnt@.subrange(0, nc as int) == g);
        assert forall|k: int| 0 <= k < 5 implies cnt@[k] == gat(g, k) && cnt@[k].0 <= 14 by {
            if k < nc {
                assert(cnt@[k] == cnt@.subrange(0, nc as int)[k]);
            } else {
                assert(cnt@[k] == cnt@.subrange(nc as int, 5)[k - nc]);
            }
        }
    }
    let f0 = cnt[0].1;
    if f0 == 4 {
        return pack(FOUR_KIND, cnt[0].0, cnt[1].0, 0, 0, 0);
    }
    if f0 == 3 && cnt[1].1 == 2 {
        return pack(FULL_HOUSE, cnt[0].0, cnt[1].0, 0, 0, 0);
    }
    if is_flush {
        return pack(FLUSH, v[0], v[1], v[2], v[3], v[4]);
    }
    if is_straight {
        return pack(STRAIGHT, v[0], 0, 0, 0, 0);
    }
    if is_wheel {
        return pack(STRAIGHT, 5, 0, 0, 0, 0);
    }
    if f0 == 3 {
        return pack(THREE_KIND, cnt[0].0, cnt[1].0, cnt[2].0, 0, 0);
    }
    if f0 == 2 && cnt[1].1 == 2 {
        return pack(TWO_PAIR, cnt[0].0, cnt[1].0, cnt[2].0, 0, 0);
    }
    if f0 == 2 {
        return pack(PAIR, cnt[0].0, cnt[1].0, cnt[2].0, cnt[3].0, 0);
    }
    pack(HIGH_CARD, v[0], v[1], v[2], v[3], v[4])
}

/// The two five-card scorers a table of twenty-one subsets can be built with.
pub enum FiveScorer {
    /// Sorting scorer, [`eval5`].
    Sorted,
    /// Bucket-scanning scorer, `sort_free::eval5`.
    Buckets,
}

impl FiveScorer {
    /// The hand-code function of the scorer.
    pub open spec fn score(self) -> spec_fn(Seq<Card>) -> int {
        match self {
            FiveScorer::Sorted => eval5_fn(),
            FiveScorer::Buckets => eval5_buckets_fn(),
        }
    }

    /// Scores five cards with the scorer.
    pub fn run(&self, hand: [Card; 5]) -> (r: u32)
        ensures
            r == self.score()(hand@),
    {
        match self {
            FiveScorer::Sorted => eval5(hand),
            FiveScorer::Buckets => super::sort_free::eval5(hand),
        }
    }
}

/// The best hand code over the twenty-one five-card subsets of seven cards.
pub fn best7(seven: &[Card; 7]) -> (best: u32)
    ensures
        is_best_of_21(seven@, eval5_fn(), best as int),
{
    best7_by(seven, &FiveScorer::Sorted)
}

/// The best code that `scorer` gives to the twenty-one five-card subsets of seven cards.
pub fn best7_by(seven: &[Card; 7], scorer: &FiveScorer) -> (best: u32)
    ensures
        is_best_of_21(seven@, scorer.score(), best as int),
{
    let ghost s = seven@;
    let ghost sc = scorer.score();
    let mut best = 0u32;
    let ghost mut w: (int, int, int, int, int) = (0, 1, 2, 3, 4);
    let ghost mut seen = false;
    let mut i0: usize = 0;
    while i0 < 3
        invariant
            i0 <= 3,
            s == seven@,
            sc == scorer.score(),
            forall|j0: int, j1: int, j2: int, j3: int, j4: int|
                combo5(j0, j1, j2, j3, j4) && lex_lt5(j0, j1, j2, j3, j4, i0 as int, 0, 0, 0, 0)
                    ==> sc(#[trigger] pick5(s, j0, j1, j2, j3, j4)) <= best,
            !seen ==> best == 0,
            !seen || (combo5(w.0, w.1, w.2, w.3, w.4) && sc(pick5(s, w.0, w.1, w.2, w.3, w.4))
                == best),
            i0 > 0 ==> seen,
        decreases 3 - i0,
    {
        let mut i1: usize = i0 + 1;
        while i1 < 4
            invariant
                i0 < 3,
                i0 + 1 <= i1 <= 4,
                s == seven@,
                sc == scorer.score(),
                forall|j0: int, j1: int, j2: int, j3: int, j4: int|
                    combo5(j0, j1, j2, j3, j4) && lex_lt5(
                        j0,
                        j1,
                        j2,
                        j3,
                        j4,
                        i0 as int,
                        i1 as int,
                        0,
                        0,
                        0,
                    ) ==> sc(#[trigger] pick5(s, j0, j1, j2, j3, j4)) <= best,
                !seen ==> best == 0,
                !seen || (combo5(w.0, w.1, w.2, w.3, w.4) && sc(
                    pick5(s, w.0, w.1, w.2, w.3, w.4),
                ) == best),
                i1 > i0 + 1 ==> seen,
                i0 > 0 ==> seen,
            decreases 4 - i1,
        {
            let mut i2: usize = i1 + 1;
            while i2 < 5
                invariant
                    i0 < i1 < 4,
                    i1 + 1 <= i2 <= 5,
                    s == seven@,
                    sc == scorer.score(),
                    forall|j0: int, j1: int, j2: int, j3: int, j4: int|
                        combo5(j0, j1, j2, j3, j4) && lex_lt5(
                            j0,
                            j1,
                            j2,
                            j3,
                            j4,
                            i0 as int,
                            i1 as int,
                            i2 as int,
                            0,
                            0,
                        ) ==> sc(#[trigger] pick5(s, j0, j1, j2, j3, j4)) <= best,
                    !seen ==> best == 0,
                    !seen || (combo5(w.0, w.1, w.2, w.3, w.4) && sc(
                        pick5(s, w.0, w.1, w.2, w.3, w.4),
                    ) == best),
                    i2 > i1 + 1 ==> seen,
                    i1 > i0 + 1 ==> seen,
                    i0 > 0 ==> seen,
                decreases 5 - i2,
            {
                let mut i3: usize = i2 + 1;
                while i3 < 6
                    invariant
                        i0 < i1 < i2 < 5,
                        i2 + 1 <= i3 <= 6,
                        s == seven@,
                        sc == scorer.score(),
                        forall|j0: int, j1: int, j2: int, j3: int, j4: int|
                            combo5(j0, j1, j2, j3, j4) && lex_lt5(
                                j0,
                                j1,
                                j2,
                                j3,
                                j4,
                                i0 as int,
                                i1 as int,
                                i2 as int,
                                i3 as int,
                                0,
                            ) ==> sc(#[trigger] pick5(s, j0, j1, j2, j3, j4)) <= best,
                        !seen ==> best == 0,
                        !seen || (combo5(w.0, w.1, w.2, w.3, w.4) && sc(
                            pick5(s, w.0, w.1, w.2, w.3, w.4),
                        ) == best),
                        i3 > i2 + 1 ==> seen,
                        i2 > i1 + 1 ==> seen,
                        i1 > i0 + 1 ==> seen,
                        i0 > 0 ==> seen,
                    decreases 6 - i3,
                {
                    let mut i4: usize = i3 + 1;
                    while i4 < 7
                        invariant
                            i0 < i1 < i2 < i3 < 6,
                            i3 + 1 <= i4 <= 7,
                            s == seven@,
                            sc == scorer.score(),
                            forall|j0: int, j1: int, j2: int, j3: int, j4: int|
                                combo5(j0, j1, j2, j3, j4) && lex_lt5(
                                    j0,
                                    j1,
                                    j2,
                                    j3,
                                    j4,
                                    i0 as int,
                                    i1 as int,
                                    i2 as int,
                                    i3 as int,
                                    i4 as int,
                                ) ==> sc(#[trigger] pick5(s, j0, j1, j2, j3, j4)) <= best,
                            !seen ==> best == 0,
                            !seen || (combo5(w.0, w.1, w.2, w.3, w.4) && sc(
                                pick5(s, w.0, w.1, w.2, w.3, w.4),
                            ) == best),
                            i4 > i3 + 1 ==> seen,
                            i3 > i2 + 1 ==> seen,
                            i2 > i1 + 1 ==> seen,
                            i1 > i0 + 1 ==> seen,
                            i0 > 0 ==> seen,
                        decreases 7 - i4,
                    {
                        let hand = [seven[i0], seven[i1], seven[i2], seven[i3], seven[i4]];
                        let v = scorer.run(hand);
                        proof {
                            assert(hand@ =~= pick5(
                                s,
                                i0 as int,
                                i1 as int,
                                i2 as int,
                                i3 as int,
                                i4 as int,
                            ));
                        }
                        proof {
                            if v > best || !seen {
                                w = (i0 as int, i1 as int, i2 as int, i3 as int, i4 as int);
                                seen = true;
                            }
                        }
                        if v > best {
                            best = v;
                        }
                        i4 = i4 + 1;
                    }
                    i3 = i3 + 1;
                }
                i2 = i2 + 1;
            }
            i1 = i1 + 1;
        }
        i0 = i0 + 1;
    }
    proof {
        assert(combo5(w.0, w.1, w.2, w.3, w.4) && sc(pick5(s, w.0, w.1, w.2, w.3, w.4)) == best);
    }
    best
}

/// Evaluator that scores seven cards as the best of their twenty-one five-card subsets, each
/// scored by sorting its ranks, and shuffles the whole deck before each deal.
pub struct FastEvaluator;

impl FastEvaluator {
    /// Plays the condition's deals from `seed` (full shuffle, best of the twenty-one subsets by sorting) and counts, per player, the deals
    /// won and with how many others, and the hand categories.
    pub fn run(&self, condition: &Condition, seed: u64) -> (t: SimTally)
        requires
            condition.players@.len() <= MAX_PLAYERS,
            dealable(condition),
        ensures
            t.counts(
                Scorer::Sorted,
                Shuffle::Full,
                condition_slots(condition),
                start_state(seed),
                condition.iterations as nat,
            ),
            t.balanced(condition.iterations as int),
    {
        let mut rng = Rng::from_seed(seed);
        proof {
            lemma_few_players(condition.players@.len() as int);
        }
        run_condition(&Scorer::Sorted, Shuffle::Full, condition, &mut rng)
    }
}

} // verus!
