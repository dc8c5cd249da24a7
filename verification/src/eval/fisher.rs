//! The best-of-twenty-one evaluator with a partial Fisher-Yates shuffle.

use vstd::prelude::*;
use super::{Condition, MAX_PLAYERS};
use super::rng::Rng;
use super::score::Scorer;
use super::sim::{condition_slots, lemma_few_players, dealable, run_condition, start_state, Shuffle, SimTally};

verus! {

/// Evaluator that scores seven cards as the best of their twenty-one five-card subsets, each
/// scored by sorting its ranks, and draws only the cards it deals, with Lemire's reduction.
pub struct FisherEvaluator;

impl FisherEvaluator {
    /// Plays the condition's deals from `seed` (partial shuffle with Lemire's draw, best of the twenty-one subsets by sorting) and counts, per player, the deals
    /// won and with how many others, and the hand categories.
    pub fn run(&self, condition: &Condition, seed: u64) -> (t: SimTally)
        requires
            condition.players@.len() <= MAX_PLAYERS,
            dealable(condition),
        ensures
            t.counts(
                Scorer::Sorted,
                Shuffle::Lemire,
                condition_slots(condition),
                start_state(seed),
                condition.iterations as nat,
            ),
            t.balanced(condition.iterations as int),
    {
        let mut rng = Rng::from_seed(seed);
        proof {
            lemma_few_players(condition.players@.len() as int);
        }
        run_condition(&Scorer::Sorted, Shuffle::Lemire, condition, &mut rng)
    }
}

} // verus!
