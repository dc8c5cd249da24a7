//! Direct seven-card evaluator: one pass over the seven cards builds a count table and a suit
//! table, from which the best hand is read without enumerating five-card subsets.

use vstd::prelude::*;
use super::{Condition, MAX_PLAYERS};
use super::rng::Rng;
use super::score::{best21, Scorer};
use super::sim::{condition_slots, lemma_few_players, dealable, run_condition, start_state, Shuffle, SimTally};
use crate::card::{Card, Suit};
use super::{
    pack, FOUR_KIND, FULL_HOUSE, HIGH_CARD, PAIR, STRAIGHT, THREE_KIND, TWO_PAIR,
};
use super::count::{find_straight_top, tally7};
use super::lut::eval_flush_ranks;
use super::model::{
    eval5_fn, eval7_spec, flush_suit, gat, groups_bot, groups_top, lemma_groups_bot_sorted,
    lemma_groups_bot_top, lemma_groups_top_len, lemma_ordered_groups, lemma_sorted_ranks,
    lemma_suit_ranks, high_except, lemma_high_except, non_flush_code, ordered_groups, suit_counts, suit_ranks, wheel_in, fsum,
};
use super::sort::{desc_u8, sort_desc, sort_groups};

verus! {

/// The first suit position holding at least five of the counted cards, or 4.
pub fn find_flush_suit(suit_cnt: &[u8; 4]) -> (fs: usize)
    ensures
        fs == flush_suit(suit_cnt@),
{
    if suit_cnt[0] >= 5 {
        0
    } else if suit_cnt[1] >= 5 {
        1
    } else if suit_cnt[2] >= 5 {
        2
    } else if suit_cnt[3] >= 5 {
        3
    } else {
        4
    }
}

/// Collects, in card order, the rank values of the cards of suit `fs`.
pub fn collect_suit_ranks(seven: &[Card; 7], fs: Suit) -> (res: ([u8; 7], usize))
    ensures
        res.1 <= 7,
        res.0@.subrange(0, res.1 as int) == suit_ranks(seven@, fs.index()),
{
    let mut fv = [0u8; 7];
    let mut nf: usize = 0;
    let mut k: usize = 0;
    while k < 7
        invariant
            k <= 7,
            nf <= k,
            fv@.subrange(0, nf as int) == suit_ranks(seven@.take(k as int), fs.index()),
        decreases 7 - k,
    {
        let c = seven[k];
        let ghost before = fv@;
        proof {
            assert(seven@.take(k + 1).drop_last() == seven@.take(k as int));
            assert(seven@.take(k + 1).last() == c);
        }
        if c.suit == fs {
            fv[nf] = c.rank.idx();
            nf = nf + 1;
            proof {
                assert(fv@.subrange(0, nf as int) =~= before.subrange(0, nf - 1).push(
                    c.rank.value() as u8,
                ));
            }
        }
        k = k + 1;
    }
    assert(seven@.take(7) == seven@);
    (fv, nf)
}

/// Scores seven cards directly; for seven distinct cards this is the best code of their
/// twenty-one five-card subsets.
pub fn eval7(seven: &[Card; 7]) -> (r: u32)
    ensures
        r == eval7_spec(seven@),
        seven@.no_duplicates() ==> r == best21(seven@, eval5_fn()),
{
    proof {
        if seven@.no_duplicates() {
            super::agree_seven::lemma_direct_agrees(seven@);
        }
    }
    let (freq, suit_cnt) = tally7(seven);
    let fs_idx = find_flush_suit(&suit_cnt);
    if fs_idx < 4 {
        let fs = Suit::at(fs_idx);
        let (mut fv, nf) = collect_suit_ranks(seven, fs);
        proof {
            lemma_suit_ranks(seven@, fs_idx as int);
            super::model::lemma_suit_count_le_len(seven@, fs_idx as int);
            assert(suit_cnt@[fs_idx as int] == suit_counts(seven@)[fs_idx as int]);
            assert(nf >= 5);
        }
        sort_desc(&mut fv, nf);
        let ghost sv = suit_ranks(seven@, fs_idx as int).sort_by(desc_u8());
        proof {
            lemma_sorted_ranks(suit_ranks(seven@, fs_idx as int));
        }
        let ranks = &fv[0..nf];
        proof {
            assert(ranks@ == sv);
        }
        return eval_flush_ranks(ranks);
    }
    let r = non_flush_asc(&freq);
    r
}

/// Scores a count table of seven cards without a flush, collecting its groups from Two up.
pub fn non_flush_asc(freq: &[u8; 15]) -> (r: u32)
    requires
        fsum(freq@, 2) == 7,
    ensures
        r == non_flush_code(freq@),
{
    let mut cnt = [(0u8, 0u8); 7];
    let mut nc: usize = 0;
    let mut r: u8 = 2;
    proof {
        lemma_groups_top_len(freq@, 2);
    }
    while r <= 14
        invariant
            2 <= r <= 15,
            nc <= 7,
            fsum(freq@, 2) == 7,
            groups_top(freq@, 2).len() <= 7,
            cnt@.subrange(0, nc as int) == groups_bot(freq@, r - 1),
            forall|j: int| nc <= j < 7 ==> cnt@[j] == (0u8, 0u8),
        decreases 15 - r,
    {
        let ghost before = cnt@;
        proof {
            broadcast use vstd::seq_lib::group_to_multiset_ensures;
            broadcast use vstd::multiset::group_multiset_axioms;

            lemma_groups_bot_top(freq@, r as int);
            let b = groups_bot(freq@, r as int);
            let t = groups_top(freq@, r + 1);
            assert(b.to_multiset().add(t.to_multiset()).len() == b.to_multiset().len()
                + t.to_multiset().len());
            assert(b.len() <= 7);
            assert(groups_bot(freq@, r as int) == groups_bot(freq@, r - 1)
                + super::model::group_at(freq@, r as int));
        }
        if freq[r as usize] > 0 {
            cnt[nc] = (r, freq[r as usize]);
            nc = nc + 1;
            proof {
                assert(cnt@.subrange(0, nc as int) =~= before.subrange(0, nc - 1) + seq![
                    (r, freq@[r as int]),
                ]);
            }
        }
        proof {
            assert(cnt@.subrange(0, nc as int) =~= groups_bot(freq@, r as int));
        }
        r = r + 1;
    }
    sort_groups(&mut cnt, nc);
    proof {
        lemma_groups_bot_sorted(freq@);
        lemma_ordered_groups(freq@);
        let g = ordered_groups(freq@);
        assert(cnt@.subrange(0, nc as int) == g);
        assert forall|k: int| 0 <= k < 7 implies cnt@[k] == gat(g, k) && cnt@[k].0 <= 14 by {
            if k < nc {
                assert(cnt@[k] == cnt@.subrange(0, nc as int)[k]);
            } else {
                assert(cnt@[k] == cnt@.subrange(nc as int, 7)[k - nc]);
            }
        }
    }
    pick_non_flush(freq, &cnt)
}

/// The highest rank that occurs in the count table and is neither `a` nor `b`, or 0.
pub fn high_except_exec(freq: &[u8; 15], a: u8, b: u8) -> (r: u8)
    ensures
        r == high_except(freq@, a as int, b as int, 14),
        r <= 14,
{
    let mut h: usize = 14;
    proof {
        lemma_high_except(freq@, a as int, b as int, 14);
    }
    while h >= 2
        invariant
            1 <= h <= 14,
            high_except(freq@, a as int, b as int, 14) == high_except(freq@, a as int, b as int, h as int),
        decreases h,
    {
        if freq[h] > 0 && h != a as usize && h != b as usize {
            return h as u8;
        }
        h = h - 1;
    }
    0
}

/// Reads the code of a hand without a flush from its count table and its ordered groups.
pub fn pick_non_flush(freq: &[u8; 15], cnt: &[(u8, u8); 7]) -> (r: u32)
    requires
        forall|k: int|
            0 <= k < 7 ==> #[trigger] cnt@[k] == gat(ordered_groups(freq@), k) && cnt@[k].0 <= 14,
    ensures
        r == non_flush_code(freq@),
{
    let straight_top = find_straight_top(freq);
    let is_wheel = straight_top == 0 && freq[14] > 0 && freq[5] > 0 && freq[4] > 0 && freq[3] > 0
        && freq[2] > 0;
    let f0 = cnt[0].1;
    if f0 == 4 {
        let kicker = high_except_exec(freq, cnt[0].0, 0);
        return pack(FOUR_KIND, cnt[0].0, kicker, 0, 0, 0);
    }
    if f0 == 3 && cnt[1].1 >= 2 {
        return pack(FULL_HOUSE, cnt[0].0, cnt[1].0, 0, 0, 0);
    }
    if straight_top > 0 {
        return pack(STRAIGHT, straight_top, 0, 0, 0, 0);
    }
    if is_wheel {
        return pack(STRAIGHT, 5, 0, 0, 0, 0);
    }
    if f0 == 3 {
        return pack(THREE_KIND, cnt[0].0, cnt[1].0, cnt[2].0, 0, 0);
    }
    if f0 == 2 && cnt[1].1 == 2 {
        let kicker = high_except_exec(freq, cnt[0].0, cnt[1].0);
        return pack(TWO_PAIR, cnt[0].0, cnt[1].0, kicker, 0, 0);
    }
    if f0 == 2 {
        return pack(PAIR, cnt[0].0, cnt[1].0, cnt[2].0, cnt[3].0, 0);
    }
    pack(HIGH_CARD, cnt[0].0, cnt[1].0, cnt[2].0, cnt[3].0, cnt[4].0)
}

/// Evaluator that scores seven cards directly and draws only the cards it deals, with
/// Lemire's reduction.
pub struct Eval7Evaluator;

impl Eval7Evaluator {
    /// Plays the condition's deals from `seed` (partial shuffle with Lemire's draw, direct seven-card code) and counts, per player, the deals
    /// won and with how many others, and the hand categories.
    pub fn run(&self, condition: &Condition, seed: u64) -> (t: SimTally)
        requires
            condition.players@.len() <= MAX_PLAYERS,
            dealable(condition),
        ensures
            t.counts(
                Scorer::Direct,
                Shuffle::Lemire,
                condition_slots(condition),
                start_state(seed),
                condition.iterations as nat,
            ),
            t.balanced(condition.iterations as int),
    {
        let mut rng = Rng::from_seed(seed);
        proof {
            lemma_few_players(condition.players@.len() as int);
        }
        run_condition(&Scorer::Direct, Shuffle::Lemire, condition, &mut rng)
    }
}

} // verus!
