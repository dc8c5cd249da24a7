//! Sort-free evaluator: the straight is read from a scan of the count table and the groups
//! from buckets filled from Ace down to Two, so no sort is needed.

use vstd::prelude::*;
use super::{Condition, MAX_PLAYERS};
use super::rng::Rng;
use super::score::Scorer;
use super::sim::{condition_slots, lemma_few_players, dealable, run_condition, start_state, Shuffle, SimTally};
use crate::card::Card;
use super::{
    pack, FLUSH, FOUR_KIND, FULL_HOUSE, HIGH_CARD, PAIR, ROYAL_FLUSH, STRAIGHT, STR_FLUSH,
    THREE_KIND, TWO_PAIR,
};
use super::count::{count_card_ranks, find_straight_top};
use super::model::{
    eval5_buckets_fn, eval5_buckets_spec, fsum, is_best_of_21, last_or_zero, lemma_fsum_mono, lemma_ranks_present,
    lemma_ranks_with, ranks_present, ranks_with, vat,
};

verus! {

/// Buckets of a five-card count table: lowest rank seen four times, lowest rank seen three
/// times, the pairs and the singles from the top, with how many of each.
pub struct Buckets5 {
    pub quad: u8,
    pub trip: u8,
    pub pairs: [u8; 2],
    pub np: usize,
    pub singles: [u8; 5],
    pub ns: usize,
}

/// Fills the buckets of a count table whose ranks 2..=14 sum to five.
pub fn fill_buckets(freq: &[u8; 15]) -> (b: Buckets5)
    requires
        fsum(freq@, 2) == 5,
    ensures
        b.quad == last_or_zero(ranks_with(freq@, 4, 2)),
        b.trip == last_or_zero(ranks_with(freq@, 3, 2)),
        b.np == ranks_with(freq@, 2, 2).len(),
        b.ns == ranks_with(freq@, 1, 2).len(),
        forall|i: int| 0 <= i < 2 ==> b.pairs@[i] == vat(ranks_with(freq@, 2, 2), i),
        forall|i: int| 0 <= i < 5 ==> b.singles@[i] == vat(ranks_with(freq@, 1, 2), i),
{
    let mut quad = 0u8;
    let mut trip = 0u8;
    let mut pairs = [0u8; 2];
    let mut np: usize = 0;
    let mut singles = [0u8; 5];
    let mut ns: usize = 0;
    let mut r: u8 = 14;
    while r >= 2
        invariant
            1 <= r <= 14,
            fsum(freq@, 2) == 5,
            quad == last_or_zero(ranks_with(freq@, 4, r + 1)),
            trip == last_or_zero(ranks_with(freq@, 3, r + 1)),
            np == ranks_with(freq@, 2, r + 1).len(),
            ns == ranks_with(freq@, 1, r + 1).len(),
            np <= 2,
            ns <= 5,
            forall|i: int| 0 <= i < 2 ==> pairs@[i] == vat(ranks_with(freq@, 2, r + 1), i),
            forall|i: int| 0 <= i < 5 ==> singles@[i] == vat(ranks_with(freq@, 1, r + 1), i),
        decreases r,
    {
        proof {
            lemma_fsum_mono(freq@, 2, r as int);
            lemma_ranks_with(freq@, 2, r as int);
            lemma_ranks_with(freq@, 1, r as int);
        }
        let c = freq[r as usize];
        if c == 4 {
            quad = r;
        } else if c == 3 {
            trip = r;
        } else if c == 2 {
            pairs[np] = r;
            np = np + 1;
        } else if c == 1 {
            singles[ns] = r;
            ns = ns + 1;
        }
        r = r - 1;
    }
    Buckets5 { quad, trip, pairs, np, singles, ns }
}

/// Scores exactly five cards without sorting.
pub fn eval5(cards: [Card; 5]) -> (r: u32)
    ensures
        r == eval5_buckets_spec(cards@),
{
    let freq = count_card_ranks(&cards);
    let is_flush = cards[0].suit == cards[1].suit && cards[1].suit == cards[2].suit && cards[2].suit
        == cards[3].suit && cards[3].suit == cards[4].suit;
    let straight_top = find_straight_top(&freq);
    let is_straight = straight_top > 0;
    let is_wheel = !is_straight && freq[14] > 0 && freq[5] > 0 && freq[4] > 0 && freq[3] > 0
        && freq[2] > 0;

    if is_flush && (is_straight || is_wheel) {
        return if is_straight && straight_top == 14 {
            pack(ROYAL_FLUSH, 0, 0, 0, 0, 0)
        } else {
            let top = if is_wheel {
                5
            } else {
                straight_top
            };
            pack(STR_FLUSH, top, 0, 0, 0, 0)
        };
    }
    let b = fill_buckets(&freq);
    proof {
        lemma_ranks_with(freq@, 4, 2);
        lemma_ranks_with(freq@, 3, 2);
        lemma_ranks_with(freq@, 2, 2);
        lemma_ranks_with(freq@, 1, 2);
        lemma_ranks_present(freq@, 2);
    }
    if b.quad > 0 {
        return pack(FOUR_KIND, b.quad, b.singles[0], 0, 0, 0);
    }
    if b.trip > 0 && b.np > 0 {
        return pack(FULL_HOUSE, b.trip, b.pairs[0], 0, 0, 0);
    }
    if is_flush {
        let mut fv = [0u8; 5];
        let mut fi: usize = 0;
        let mut r: u8 = 14;
        while r >= 2
            invariant
                1 <= r <= 14,
                fsum(freq@, 2) == 5,
                fi == ranks_present(freq@, r + 1).len(),
                fi <= 5,
                forall|i: int| 0 <= i < 5 ==> fv@[i] == vat(ranks_present(freq@, r + 1), i),
            decreases r,
        {
            proof {
                lemma_fsum_mono(freq@, 2, r as int);
                lemma_ranks_present(freq@, r as int);
            }
            if freq[r as usize] > 0 {
                fv[fi] = r;
                fi = fi + 1;
            }
            r = r - 1;
        }
        return pack(FLUSH, fv[0], fv[1], fv[2], fv[3], fv[4]);
    }
    if is_straight {
        return pack(STRAIGHT, straight_top, 0, 0, 0, 0);
    }
    if is_wheel {
        return pack(STRAIGHT, 5, 0, 0, 0, 0);
    }
    if b.trip > 0 {
        return pack(THREE_KIND, b.trip, b.singles[0], b.singles[1], 0, 0);
    }
    if b.np == 2 {
        return pack(TWO_PAIR, b.pairs[0], b.pairs[1], b.singles[0], 0, 0);
    }
    if b.np == 1 {
        return pack(PAIR, b.pairs[0], b.singles[0], b.singles[1], b.singles[2], 0);
    }
    pack(HIGH_CARD, b.singles[0], b.singles[1], b.singles[2], b.singles[3], b.singles[4])
}

/// The best bucket-scanning code over the twenty-one five-card subsets of seven cards.
pub fn best7(seven: &[Card; 7]) -> (best: u32)
    ensures
        is_best_of_21(seven@, eval5_buckets_fn(), best as int),
{
    super::fast::best7_by(seven, &super::fast::FiveScorer::Buckets)
}

/// Evaluator that scores seven cards as the best of their twenty-one five-card subsets, each
/// scored by scanning rank buckets, and shuffles the whole deck before each deal.
pub struct SortFreeEvaluator;

impl SortFreeEvaluator {
    /// Plays the condition's deals from `seed` (full shuffle, best of the twenty-one subsets by rank buckets) and counts, per player, the deals
    /// won and with how many others, and the hand categories.
    pub fn run(&self, condition: &Condition, seed: u64) -> (t: SimTally)
        requires
            condition.players@.len() <= MAX_PLAYERS,
            dealable(condition),
        ensures
            t.counts(
                Scorer::Buckets,
                Shuffle::Full,
                condition_slots(condition),
                start_state(seed),
                condition.iterations as nat,
            ),
            t.balanced(condition.iterations as int),
    {
        let mut rng = Rng::from_seed(seed);
        proof {
            lemma_few_players(condition.players@.len() as int);
        }
        run_condition(&Scorer::Buckets, Shuffle::Full, condition, &mut rng)
    }
}

} // verus!
