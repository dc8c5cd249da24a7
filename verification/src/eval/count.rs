//! Count tables built from cards, and the straight scan over a count table.

use vstd::prelude::*;
use crate::card::Card;
use super::model::{
    lemma_suit_push, suit_counts,
    fsum, freq_of, lemma_count_le_len, lemma_freq_push, lemma_fsum_update, lemma_fsum_zero,
    rank_values, run_at, straight_top,
};

verus! {

/// Counts the cards of each rank value.
pub fn count_card_ranks<const N: usize>(cards: &[Card; N]) -> (freq: [u8; 15])
    requires
        N < 255,
    ensures
        freq@ == freq_of(rank_values(cards@)),
        fsum(freq@, 2) == N,
        freq@[0] == 0 && freq@[1] == 0,
{
    let mut freq = [0u8; 15];
    proof {
        assert(freq_of(rank_values(cards@).take(0)) =~= freq@);
        lemma_fsum_zero(freq@, 2);
    }
    let mut k: usize = 0;
    while k < N
        invariant
            k <= N < 255,
            freq@ == freq_of(rank_values(cards@).take(k as int)),
            fsum(freq@, 2) == k,
            freq@[0] == 0 && freq@[1] == 0,
        decreases N - k,
    {
        let r = cards[k].rank.idx() as usize;
        proof {
            let rv = rank_values(cards@);
            assert(rv[k as int] == r);
            lemma_count_le_len(rv.take(k as int), r as int);
            lemma_freq_push(rv.take(k as int), rv[k as int]);
            assert(rv.take(k as int).push(rv[k as int]) == rv.take(k + 1));
            lemma_fsum_update(freq@, r as int, (freq@[r as int] + 1) as u8, 2);
        }
        freq[r] = freq[r] + 1;
        k = k + 1;
    }
    assert(rank_values(cards@).take(N as int) == rank_values(cards@));
    freq
}

/// The top of the highest five-rank run in a count table, or 0 when there is none.
pub fn find_straight_top(freq: &[u8; 15]) -> (top: u8)
    ensures
        top == straight_top(freq@, 14),
        top == 0 || (6 <= top <= 14 && run_at(freq@, top as int)),
{
    proof {
        super::model::lemma_straight_top_bound(freq@, 14);
    }
    let mut top = 0u8;
    let mut h: u8 = 14;
    while h >= 6
        invariant
            5 <= h <= 14,
            top == 0,
            straight_top(freq@, 14) == straight_top(freq@, h as int),
        decreases h,
    {
        if freq[h as usize] > 0 && freq[(h - 1) as usize] > 0 && freq[(h - 2) as usize] > 0
            && freq[(h - 3) as usize] > 0 && freq[(h - 4) as usize] > 0 {
            assert(run_at(freq@, h as int));
            top = h;
            return top;
        }
        h = h - 1;
    }
    top
}

/// Counts the seven cards by rank value and by suit in one pass.
pub fn tally7(seven: &[Card; 7]) -> (res: ([u8; 15], [u8; 4]))
    ensures
        res.0@ == freq_of(rank_values(seven@)),
        fsum(res.0@, 2) == 7,
        res.0@[0] == 0 && res.0@[1] == 0,
        res.1@ == suit_counts(seven@),
{
    let mut freq = [0u8; 15];
    let mut suit_cnt = [0u8; 4];
    proof {
        assert(freq_of(rank_values(seven@).take(0)) =~= freq@);
        assert(suit_counts(seven@.take(0)) =~= suit_cnt@);
        lemma_fsum_zero(freq@, 2);
    }
    let mut k: usize = 0;
    while k < 7
        invariant
            k <= 7,
            freq@ == freq_of(rank_values(seven@).take(k as int)),
            suit_cnt@ == suit_counts(seven@.take(k as int)),
            fsum(freq@, 2) == k,
            freq@[0] == 0 && freq@[1] == 0,
        decreases 7 - k,
    {
        let c = seven[k];
        let r = c.rank.idx() as usize;
        let su = c.suit.idx();
        proof {
            let rv = rank_values(seven@);
            assert(rv[k as int] == r);
            lemma_count_le_len(rv.take(k as int), r as int);
            lemma_freq_push(rv.take(k as int), rv[k as int]);
            assert(rv.take(k as int).push(rv[k as int]) == rv.take(k + 1));
            lemma_fsum_update(freq@, r as int, (freq@[r as int] + 1) as u8, 2);
            lemma_suit_push(seven@.take(k as int), c);
            assert(seven@.take(k as int).push(c) == seven@.take(k + 1));
            super::model::lemma_suit_count_le_len(seven@.take(k as int), su as int);
        }
        freq[r] = freq[r] + 1;
        suit_cnt[su] = suit_cnt[su] + 1;
        k = k + 1;
    }
    assert(rank_values(seven@).take(7) == rank_values(seven@));
    assert(seven@.take(7) == seven@);
    (freq, suit_cnt)
}

} // verus!
