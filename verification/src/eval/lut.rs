//! Lookup-table evaluator: every flush rank set and every count table of seven cards is scored
//! once, and a hand is then scored by one table read.

use vstd::prelude::*;
use super::{Condition, MAX_PLAYERS};
use super::deal::distinct_given;
use super::rng::Rng;
use super::score::Scorer;
use super::sim::{
    condition_slots, dealable, lemma_few_players, run_condition, start_state, Shuffle, SimTally,
};
use super::{pack, FLUSH, ROYAL_FLUSH, STR_FLUSH};
use crate::card::{Card, Suit};
use super::count::tally7;
use super::eval7::{find_flush_suit, pick_non_flush};
use super::model::{
    eval7_spec,
    first_run, flush_code, flush_suit, freq_of, fsum, gat, groups_top, lemma_groups_top_len,
    lemma_ordered_groups, non_flush_code, ordered_groups, rank_values, run_from, suit_counts,
};
use super::sort::sort_groups;

verus! {

/// log2 of the number of slots of the count-table map.
pub const TBL_BITS: usize = 17;

/// Number of slots of the count-table map.
pub const TBL_SIZE: usize = 131072;

/// Mask that wraps a slot index around the table.
pub const TBL_MASK: usize = 131071;

/// Key stored in an empty slot.
pub const EMPTY_KEY: u64 = 0xffff_ffff_ffff_ffff;

/// The home slot of a key: the key times the 64-bit golden-ratio constant, folded with its
/// upper half and masked to the table size.
pub open spec fn ht_slot_spec(key: u64) -> int {
    let h = vstd::wrapping::u64_specs::wrapping_mul(key, 0x9e3779b97f4a7c15u64);
    ((h ^ (h >> 32u64)) & 131071u64) as int
}

/// Home slot of a key in the count-table map.
pub fn ht_slot(key: u64) -> (s: usize)
    ensures
        s == ht_slot_spec(key),
        s < TBL_SIZE,
{
    let h = key.wrapping_mul(0x9e3779b97f4a7c15);
    let x = (h ^ (h >> 32u64)) & 131071u64;
    assert(x <= 131071) by (bit_vector)
        requires
            x == (h ^ (h >> 32u64)) & 131071u64,
    ;
    x as usize
}

/// Distance from slot `from` to slot `to` when probing forward with wrap-around.
pub open spec fn slot_dist(from: int, to: int) -> int {
    (to - from + 131072) % 131072
}

/// Slot `p` is the first slot at or after `home`, going forward with wrap-around, that holds
/// `key`.
pub open spec fn is_first_with(keys: Seq<u64>, home: int, key: u64, p: int) -> bool {
    &&& 0 <= p < 131072
    &&& keys[p] == key
    &&& forall|q: int| 0 <= q < 131072 && slot_dist(home, q) < slot_dist(home, p) ==> keys[q] != key
}

/// The first slot at or after `home` that holds `key`.
pub open spec fn first_with(keys: Seq<u64>, home: int, key: u64) -> int {
    choose|p: int| is_first_with(keys, home, key, p)
}

/// Number of slots of `keys` that are in use.
pub open spec fn count_used(keys: Seq<u64>) -> nat
    decreases keys.len(),
{
    if keys.len() == 0 {
        0
    } else {
        count_used(keys.drop_last()) + (if keys.last() != EMPTY_KEY {
            1nat
        } else {
            0nat
        })
    }
}

/// The keys in use are distinct, and every slot between a key's home slot and the slot holding
/// it is in use.
pub open spec fn keys_wf(keys: Seq<u64>) -> bool {
    &&& keys.len() == 131072
    &&& forall|p: int, q: int|
        0 <= p < 131072 && 0 <= q < 131072 && p != q && keys[p] != EMPTY_KEY ==> #[trigger] keys[p]
            != #[trigger] keys[q]
    &&& forall|p: int, q: int|
        0 <= p < 131072 && 0 <= q < 131072 && #[trigger] keys[p] != EMPTY_KEY && slot_dist(
            ht_slot_spec(keys[p]),
            q,
        ) < slot_dist(ht_slot_spec(keys[p]), p) ==> #[trigger] keys[q] != EMPTY_KEY
}

/// Open-addressing map from count-table keys to hand codes, probed linearly.
pub struct NonFlushTable {
    pub keys: Vec<u64>,
    pub vals: Vec<u32>,
}

impl NonFlushTable {
    /// Both arrays have one entry per slot.
    pub open spec fn sized(&self) -> bool {
        self.keys@.len() == TBL_SIZE && self.vals@.len() == TBL_SIZE
    }

    /// The table is sized, its keys in use are distinct, and every slot between a key's home
    /// slot and the slot holding it is in use, so a probe from the home slot finds the key.
    pub open spec fn well_formed(&self) -> bool {
        &&& self.sized()
        &&& keys_wf(self.keys@)
    }

    /// Whether `key` is stored with value `val`.
    pub open spec fn maps(&self, key: u64, val: u32) -> bool {
        maps_in(self.keys@, self.vals@, key, val)
    }

    /// An empty table: every key is the empty marker and every value 0.
    pub fn new() -> (t: NonFlushTable)
        ensures
            t.sized(),
            forall|p: int| 0 <= p < 131072 ==> t.keys@[p] == EMPTY_KEY,
            forall|p: int| 0 <= p < 131072 ==> t.vals@[p] == 0,
            t.keys@ == empty_keys(),
            t.vals@ == empty_vals(),
    {
        let mut keys: Vec<u64> = Vec::new();
        let mut vals: Vec<u32> = Vec::new();
        let mut i: usize = 0;
        while i < TBL_SIZE
            invariant
                i <= TBL_SIZE,
                keys@.len() == i,
                vals@.len() == i,
                forall|p: int| 0 <= p < i ==> keys@[p] == EMPTY_KEY,
                forall|p: int| 0 <= p < i ==> vals@[p] == 0,
            decreases TBL_SIZE - i,
        {
            keys.push(EMPTY_KEY);
            vals.push(0u32);
            i = i + 1;
        }
        assert(keys@ =~= empty_keys());
        assert(vals@ =~= empty_vals());
        NonFlushTable { keys, vals }
    }

    /// Stores `key` with `val` in the first empty slot at or after the key's home slot.
    pub fn insert(&mut self, key: u64, val: u32)
        requires
            old(self).sized(),
            exists|e: int| 0 <= e < 131072 && old(self).keys@[e] == EMPTY_KEY,
        ensures
            final(self).sized(),
            ({
                let p = first_with(old(self).keys@, ht_slot_spec(key), EMPTY_KEY);
                &&& is_first_with(old(self).keys@, ht_slot_spec(key), EMPTY_KEY, p)
                &&& final(self).keys@ == old(self).keys@.update(p, key)
                &&& final(self).vals@ == old(self).vals@.update(p, val)
            }),
            final(self).keys@ == keys_after_insert(old(self).keys@, key),
            final(self).vals@ == vals_after_insert(old(self).keys@, old(self).vals@, key, val),
    {
        let home = ht_slot(key);
        let ghost e = choose|e: int| 0 <= e < 131072 && self.keys@[e] == EMPTY_KEY;
        let mut idx = home;
        while self.keys[idx] != EMPTY_KEY
            invariant
                self.sized(),
                self.keys@ == old(self).keys@,
                self.vals@ == old(self).vals@,
                idx < TBL_SIZE,
                home < TBL_SIZE,
                home == ht_slot_spec(key),
                0 <= e < 131072 && self.keys@[e] == EMPTY_KEY,
                forall|q: int|
                    0 <= q < 131072 && slot_dist(home as int, q) < slot_dist(home as int, idx as int)
                        ==> self.keys@[q] != EMPTY_KEY,
                slot_dist(home as int, idx as int) <= slot_dist(home as int, e),
            decreases slot_dist(idx as int, e),
        {
            proof {
                lemma_wrap_next(idx);
                lemma_probe_step(home as int, idx as int, e);
            }
            idx = (idx + 1) & TBL_MASK;
        }
        proof {
            assert(is_first_with(self.keys@, home as int, EMPTY_KEY, idx as int));
            lemma_first_with_unique(self.keys@, home as int, EMPTY_KEY, idx as int);
        }
        self.keys.set(idx, key);
        self.vals.set(idx, val);
    }

    /// The value stored with `key` in the first slot holding it at or after its home slot.
    pub fn get(&self, key: u64) -> (v: u32)
        requires
            self.sized(),
            exists|p: int| 0 <= p < 131072 && self.keys@[p] == key,
        ensures
            v == self.vals@[first_with(self.keys@, ht_slot_spec(key), key)],
    {
        let home = ht_slot(key);
        let ghost e = choose|e: int| 0 <= e < 131072 && self.keys@[e] == key;
        let mut idx = home;
        loop
            invariant
                self.sized(),
                idx < TBL_SIZE,
                home < TBL_SIZE,
                home == ht_slot_spec(key),
                0 <= e < 131072 && self.keys@[e] == key,
                forall|q: int|
                    0 <= q < 131072 && slot_dist(home as int, q) < slot_dist(home as int, idx as int)
                        ==> self.keys@[q] != key,
                slot_dist(home as int, idx as int) <= slot_dist(home as int, e),
            decreases slot_dist(idx as int, e),
        {
            if self.keys[idx] == key {
                proof {
                    assert(is_first_with(self.keys@, home as int, key, idx as int));
                    lemma_first_with_unique(self.keys@, home as int, key, idx as int);
                }
                return self.vals[idx];
            }
            proof {
                lemma_wrap_next(idx);
                lemma_probe_step(home as int, idx as int, e);
            }
            idx = (idx + 1) & TBL_MASK;
        }
    }
}

/// 5 to the power `n`.
pub open spec fn pow5(n: nat) -> int
    decreases n,
{
    if n == 0 {
        1
    } else {
        5 * pow5((n - 1) as nat)
    }
}

/// The base-5 number whose digits, most significant first, are the table entries from 14
/// down to `lo`.
pub open spec fn fkey(f: Seq<u8>, lo: int) -> int
    decreases 15 - lo,
{
    if lo > 14 || lo < 0 {
        0
    } else {
        fkey(f, lo + 1) * 5 + f[lo]
    }
}

/// A key built from entries below 256 stays below 64 times a power of five.
pub proof fn lemma_fkey_bound(f: Seq<u8>, lo: int)
    requires
        0 <= lo <= 15,
    ensures
        fkey(f, lo) + 64 <= 64 * pow5((15 - lo) as nat),
        fkey(f, lo) >= 0,
    decreases 15 - lo,
{
    if lo <= 14 {
        lemma_fkey_bound(f, lo + 1);
        assert(pow5((15 - lo) as nat) == 5 * pow5((14 - lo) as nat));
    }
}

/// The base-5 key of a count table: entry 14 is the most significant digit, entry 2 the
/// least; tables whose entries are at most 4 get distinct keys.
pub fn freq_key(freq: &[u8; 15]) -> (key: u64)
    ensures
        key == fkey(freq@, 2),
{
    let mut key = 0u64;
    let mut r: usize = 14;
    proof {
        assert(pow5(0) == 1);
    }
    while r >= 2
        invariant
            1 <= r <= 14,
            key == fkey(freq@, r as int + 1),
        decreases r,
    {
        proof {
            lemma_fkey_bound(freq@, r as int + 1);
            lemma_pow5_le_13((14 - r) as nat);
        }
        key = key * 5 + freq[r] as u64;
        r = r - 1;
    }
    key
}

/// Powers of five up to the thirteenth are at most 5^13.
pub proof fn lemma_pow5_le_13(n: nat)
    requires
        n <= 13,
    ensures
        pow5(n) <= 1220703125,
        pow5(n) >= 1,
    decreases n,
{
    if n > 0 {
        lemma_pow5_le_13((n - 1) as nat);
        if n == 13 {
            lemma_pow5_13();
        } else {
            lemma_pow5_mono(n, 13);
            lemma_pow5_13();
        }
    }
}

/// 5^13 = 1220703125.
pub proof fn lemma_pow5_13()
    ensures
        pow5(13) == 1220703125,
{
    reveal_with_fuel(pow5, 14);
}

/// Powers of five grow with the exponent.
pub proof fn lemma_pow5_mono(a: nat, b: nat)
    requires
        a <= b,
    ensures
        1 <= pow5(a) <= pow5(b),
    decreases b,
{
    if a < b {
        lemma_pow5_mono(a, (b - 1) as nat);
    } else if a > 0 {
        lemma_pow5_mono((a - 1) as nat, (a - 1) as nat);
    }
}

/// Scores a count table of seven cards without a flush, collecting its groups from Ace down.
pub fn eval_non_flush(freq: &[u8; 15]) -> (r: u32)
    requires
        groups_top(freq@, 2).len() <= 7,
    ensures
        r == non_flush_code(freq@),
{
    let mut cnt = [(0u8, 0u8); 7];
    let mut nc: usize = 0;
    let mut r: u8 = 14;
    while r >= 2
        invariant
            1 <= r <= 14,
            nc <= 7,
            groups_top(freq@, 2).len() <= 7,
            cnt@.subrange(0, nc as int) == groups_top(freq@, r + 1),
            forall|j: int| nc <= j < 7 ==> cnt@[j] == (0u8, 0u8),
        decreases r,
    {
        let ghost before = cnt@;
        proof {
            lemma_groups_top_prefix(freq@, r as int, 2);
            assert(groups_top(freq@, r as int) == groups_top(freq@, r + 1)
                + super::model::group_at(freq@, r as int));
        }
        if freq[r as usize] > 0 {
            cnt[nc] = (r, freq[r as usize]);
            nc = nc + 1;
            proof {
                assert(cnt@.subrange(0, nc as int) =~= before.subrange(0, nc - 1) + seq![
                    (r, freq@[r as int]),
                ]);
            }
        }
        proof {
            assert(cnt@.subrange(0, nc as int) =~= groups_top(freq@, r as int));
        }
        r = r - 1;
    }
    sort_groups(&mut cnt, nc);
    proof {
        lemma_ordered_groups(freq@);
        let g = ordered_groups(freq@);
        assert(cnt@.subrange(0, nc as int) == g);
        assert forall|k: int| 0 <= k < 7 implies cnt@[k] == gat(g, k) && cnt@[k].0 <= 14 by {
            if k < nc {
                assert(cnt@[k] == cnt@.subrange(0, nc as int)[k]);
            } else {
                assert(cnt@[k] == cnt@.subrange(nc as int, 7)[k - nc]);
            }
        }
    }
    pick_non_flush(freq, &cnt)
}

/// Groups collected from a lower rank extend those collected from a higher one.
pub proof fn lemma_groups_top_prefix(f: Seq<u8>, hi: int, lo: int)
    requires
        2 <= lo <= hi <= 15,
    ensures
        groups_top(f, hi).len() <= groups_top(f, lo).len(),
    decreases hi - lo,
{
    if lo < hi {
        lemma_groups_top_prefix(f, hi, lo + 1);
    }
}

// ── flush table ─────────────────────────────────────────────────────────────

/// Whether bit `b` of `m` is set.
pub open spec fn bit_on(m: u16, b: u16) -> bool {
    m & (1u16 << b) != 0
}

/// The ranks (bit + 2) of the set bits of `m` from bit 12 down to bit `lo`, highest first.
pub open spec fn mask_ranks(m: u16, lo: int) -> Seq<u8>
    decreases 13 - lo,
{
    if lo > 12 || lo < 0 {
        Seq::empty()
    } else if bit_on(m, lo as u16) {
        mask_ranks(m, lo + 1).push((lo + 2) as u8)
    } else {
        mask_ranks(m, lo + 1)
    }
}

/// The flush-table entry of a 13-bit rank mask: the flush code of its ranks when five to
/// seven bits are set, and 0 otherwise.
pub open spec fn flush_entry(m: u16) -> int {
    let rs = mask_ranks(m, 0);
    if 5 <= rs.len() <= 7 {
        flush_code(rs)
    } else {
        0
    }
}

/// Mask ranks lie in 2..=14 and strictly decrease; there are at most 13 of them.
pub proof fn lemma_mask_ranks(m: u16, lo: int)
    requires
        0 <= lo <= 13,
    ensures
        mask_ranks(m, lo).len() <= 13 - lo,
        forall|i: int|
            0 <= i < mask_ranks(m, lo).len() ==> lo + 2 <= #[trigger] mask_ranks(m, lo)[i] <= 14,
        forall|i: int, j: int|
            0 <= i < j < mask_ranks(m, lo).len() ==> #[trigger] mask_ranks(m, lo)[i]
                > #[trigger] mask_ranks(m, lo)[j],
    decreases 13 - lo,
{
    if lo <= 12 {
        lemma_mask_ranks(m, lo + 1);
    }
}

/// Number of set bits among bits 12 down to `lo` of a mask.
fn count_mask_bits(mask: u16) -> (c: usize)
    ensures
        c == mask_ranks(mask, 0).len(),
{
    let mut c: usize = 0;
    let mut bit: u16 = 13;
    proof {
        lemma_mask_ranks(mask, 0);
    }
    while bit > 0
        invariant
            0 <= bit <= 13,
            c == mask_ranks(mask, bit as int).len(),
        decreases bit,
    {
        bit = bit - 1;
        proof {
            lemma_mask_ranks(mask, bit as int);
        }
        if mask & (1u16 << bit) != 0 {
            c = c + 1;
        }
    }
    c
}

/// Scores every 13-bit rank mask of a flush suit.
pub fn build_flush_table() -> (table: Vec<u32>)
    ensures
        table@.len() == 8192,
        forall|m: int| 0 <= m < 8192 ==> #[trigger] table@[m] == flush_entry(m as u16),
{
    let mut table: Vec<u32> = Vec::new();
    let mut k: usize = 0;
    while k < 8192
        invariant
            k <= 8192,
            table@.len() == k,
            forall|m: int| 0 <= m < k ==> table@[m] == 0,
        decreases 8192 - k,
    {
        table.push(0u32);
        k = k + 1;
    }
    let mut mask: u16 = 0;
    while mask < 8192
        invariant
            mask <= 8192,
            table@.len() == 8192,
            forall|m: int| 0 <= m < mask ==> #[trigger] table@[m] == flush_entry(m as u16),
            forall|m: int| mask <= m < 8192 ==> #[trigger] table@[m] == 0,
        decreases 8192 - mask,
    {
        let count = count_mask_bits(mask);
        if 5 <= count && count <= 7 {
            let mut ranks = [0u8; 7];
            let mut nr: usize = 0;
            let mut bit: u16 = 13;
            proof {
                lemma_mask_ranks(mask, 0);
            }
            while bit > 0
                invariant
                    0 <= bit <= 13,
                    count <= 7,
                    count == mask_ranks(mask, 0).len(),
                    nr == mask_ranks(mask, bit as int).len(),
                    ranks@.subrange(0, nr as int) == mask_ranks(mask, bit as int),
                decreases bit,
            {
                bit = bit - 1;
                proof {
                    lemma_mask_ranks(mask, bit as int);
                    lemma_mask_ranks_prefix(mask, bit as int, 0);
                }
                let ghost before = ranks@;
                if mask & (1u16 << bit) != 0 {
                    ranks[nr] = bit as u8 + 2;
                    nr = nr + 1;
                    proof {
                        assert(ranks@.subrange(0, nr as int) =~= before.subrange(0, nr - 1).push(
                            (bit + 2) as u8,
                        ));
                    }
                }
            }
            proof {
                lemma_mask_ranks(mask, 0);
            }
            let v = eval_flush_ranks(&ranks[0..nr]);
            table.set(mask as usize, v);
        }
        mask = mask + 1;
    }
    table
}

/// The ranks from a lower bit extend those from a higher one.
pub proof fn lemma_mask_ranks_prefix(m: u16, hi: int, lo: int)
    requires
        0 <= lo <= hi <= 13,
    ensures
        mask_ranks(m, hi).len() <= mask_ranks(m, lo).len(),
    decreases hi - lo,
{
    if lo < hi {
        lemma_mask_ranks_prefix(m, hi, lo + 1);
    }
}

// ── count-table map construction ─────────────────────────────────────────────

/// Number of count tables over ranks 2..=`rank` with entries at most 4 summing to `rem`.
pub open spec fn npat(rank: int, rem: int) -> nat
    decreases rank, 6int,
{
    if rem == 0 {
        1
    } else if rank < 2 || rem < 0 {
        0
    } else {
        npat_sum(rank, rem, if rem < 4 { rem + 1 } else { 5 })
    }
}

/// Sum of `npat(rank - 1, rem - f)` for `f` from 0 below `k`.
pub open spec fn npat_sum(rank: int, rem: int, k: int) -> nat
    decreases rank, k,
{
    if k <= 0 || k > 5 || rank < 2 {
        0
    } else {
        npat_sum(rank, rem, k - 1) + npat(rank - 1, rem - (k - 1))
    }
}

/// There are 49 205 count tables of seven cards with no rank more than four times.
pub proof fn lemma_npat_total()
    ensures
        npat(14, 7) == 49205,
{
    lemma_npat_rank14();
}

/// The counts over no rank: one empty table, nothing else.
proof fn lemma_npat_rank1()
    ensures
        npat(1, 0) == 1,
        npat(1, 1) == 0,
        npat(1, 2) == 0,
        npat(1, 3) == 0,
        npat(1, 4) == 0,
        npat(1, 5) == 0,
        npat(1, 6) == 0,
        npat(1, 7) == 0,
{
}

/// The counts over ranks 2 to 2.
proof fn lemma_npat_rank2()
    ensures
        npat(2, 0) == 1,
        npat(2, 1) == 1,
        npat(2, 2) == 1,
        npat(2, 3) == 1,
        npat(2, 4) == 1,
        npat(2, 5) == 0,
        npat(2, 6) == 0,
        npat(2, 7) == 0,
{
    lemma_npat_rank1();
    assert(npat_sum(2, 1, 0) == 0);
    assert(npat_sum(2, 1, 1) == 0);
    assert(npat_sum(2, 1, 2) == 1);
    assert(npat(2, 1) == 1);
    assert(npat_sum(2, 2, 0) == 0);
    assert(npat_sum(2, 2, 1) == 0);
    assert(npat_sum(2, 2, 2) == 0);
    assert(npat_sum(2, 2, 3) == 1);
    assert(npat(2, 2) == 1);
    assert(npat_sum(2, 3, 0) == 0);
    assert(npat_sum(2, 3, 1) == 0);
    assert(npat_sum(2, 3, 2) == 0);
    assert(npat_sum(2, 3, 3) == 0);
    assert(npat_sum(2, 3, 4) == 1);
    assert(npat(2, 3) == 1);
    assert(npat_sum(2, 4, 0) == 0);
    assert(npat_sum(2, 4, 1) == 0);
    assert(npat_sum(2, 4, 2) == 0);
    assert(npat_sum(2, 4, 3) == 0);
    assert(npat_sum(2, 4, 4) == 0);
    assert(npat_sum(2, 4, 5) == 1);
    assert(npat(2, 4) == 1);
    assert(npat_sum(2, 5, 0) == 0);
    assert(npat_sum(2, 5, 1) == 0);
    assert(npat_sum(2, 5, 2) == 0);
    assert(npat_sum(2, 5, 3) == 0);
    assert(npat_sum(2, 5, 4) == 0);
    assert(npat_sum(2, 5, 5) == 0);
    assert(npat(2, 5) == 0);
    assert(npat_sum(2, 6, 0) == 0);
    assert(npat_sum(2, 6, 1) == 0);
    assert(npat_sum(2, 6, 2) == 0);
    assert(npat_sum(2, 6, 3) == 0);
    assert(npat_sum(2, 6, 4) == 0);
    assert(npat_sum(2, 6, 5) == 0);
    assert(npat(2, 6) == 0);
    assert(npat_sum(2, 7, 0) == 0);
    assert(npat_sum(2, 7, 1) == 0);
    assert(npat_sum(2, 7, 2) == 0);
    assert(npat_sum(2, 7, 3) == 0);
    assert(npat_sum(2, 7, 4) == 0);
    assert(npat_sum(2, 7, 5) == 0);
    assert(npat(2, 7) == 0);
}

/// The counts over ranks 2 to 3.
proof fn lemma_npat_rank3()
    ensures
        npat(3, 0) == 1,
        npat(3, 1) == 2,
        npat(3, 2) == 3,
        npat(3, 3) == 4,
        npat(3, 4) == 5,
        npat(3, 5) == 4,
        npat(3, 6) == 3,
        npat(3, 7) == 2,
{
    lemma_npat_rank2();
    assert(npat_sum(3, 1, 0) == 0);
    assert(npat_sum(3, 1, 1) == 1);
    assert(npat_sum(3, 1, 2) == 2);
    assert(npat(3, 1) == 2);
    assert(npat_sum(3, 2, 0) == 0);
    assert(npat_sum(3, 2, 1) == 1);
    assert(npat_sum(3, 2, 2) == 2);
    assert(npat_sum(3, 2, 3) == 3);
    assert(npat(3, 2) == 3);
    assert(npat_sum(3, 3, 0) == 0);
    assert(npat_sum(3, 3, 1) == 1);
    assert(npat_sum(3, 3, 2) == 2);
    assert(npat_sum(3, 3, 3) == 3);
    assert(npat_sum(3, 3, 4) == 4);
    assert(npat(3, 3) == 4);
    assert(npat_sum(3, 4, 0) == 0);
    assert(npat_sum(3, 4, 1) == 1);
    assert(npat_sum(3, 4, 2) == 2);
    assert(npat_sum(3, 4, 3) == 3);
    assert(npat_sum(3, 4, 4) == 4);
    assert(npat_sum(3, 4, 5) == 5);
    assert(npat(3, 4) == 5);
    assert(npat_sum(3, 5, 0) == 0);
    assert(npat_sum(3, 5, 1) == 0);
    assert(npat_sum(3, 5, 2) == 1);
    assert(npat_sum(3, 5, 3) == 2);
    assert(npat_sum(3, 5, 4) == 3);
    assert(npat_sum(3, 5, 5) == 4);
    assert(npat(3, 5) == 4);
    assert(npat_sum(3, 6, 0) == 0);
    assert(npat_sum(3, 6, 1) == 0);
    assert(npat_sum(3, 6, 2) == 0);
    assert(npat_sum(3, 6, 3) == 1);
    assert(npat_sum(3, 6, 4) == 2);
    assert(npat_sum(3, 6, 5) == 3);
    assert(npat(3, 6) == 3);
    assert(npat_sum(3, 7, 0) == 0);
    assert(npat_sum(3, 7, 1) == 0);
    assert(npat_sum(3, 7, 2) == 0);
    assert(npat_sum(3, 7, 3) == 0);
    assert(npat_sum(3, 7, 4) == 1);
    assert(npat_sum(3, 7, 5) == 2);
    assert(npat(3, 7) == 2);
}

/// The counts over ranks 2 to 4.
proof fn lemma_npat_rank4()
    ensures
        npat(4, 0) == 1,
        npat(4, 1) == 3,
        npat(4, 2) == 6,
        npat(4, 3) == 10,
        npat(4, 4) == 15,
        npat(4, 5) == 18,
        npat(4, 6) == 19,
        npat(4, 7) == 18,
{
    lemma_npat_rank3();
    assert(npat_sum(4, 1, 0) == 0);
    assert(npat_sum(4, 1, 1) == 2);
    assert(npat_sum(4, 1, 2) == 3);
    assert(npat(4, 1) == 3);
    assert(npat_sum(4, 2, 0) == 0);
    assert(npat_sum(4, 2, 1) == 3);
    assert(npat_sum(4, 2, 2) == 5);
    assert(npat_sum(4, 2, 3) == 6);
    assert(npat(4, 2) == 6);
    assert(npat_sum(4, 3, 0) == 0);
    assert(npat_sum(4, 3, 1) == 4);
    assert(npat_sum(4, 3, 2) == 7);
    assert(npat_sum(4, 3, 3) == 9);
    assert(npat_sum(4, 3, 4) == 10);
    assert(npat(4, 3) == 10);
    assert(npat_sum(4, 4, 0) == 0);
    assert(npat_sum(4, 4, 1) == 5);
    assert(npat_sum(4, 4, 2) == 9);
    assert(npat_sum(4, 4, 3) == 12);
    assert(npat_sum(4, 4, 4) == 14);
    assert(npat_sum(4, 4, 5) == 15);
    assert(npat(4, 4) == 15);
    assert(npat_sum(4, 5, 0) == 0);
    assert(npat_sum(4, 5, 1) == 4);
    assert(npat_sum(4, 5, 2) == 9);
    assert(npat_sum(4, 5, 3) == 13);
    assert(npat_sum(4, 5, 4) == 16);
    assert(npat_sum(4, 5, 5) == 18);
    assert(npat(4, 5) == 18);
    assert(npat_sum(4, 6, 0) == 0);
    assert(npat_sum(4, 6, 1) == 3);
    assert(npat_sum(4, 6, 2) == 7);
    assert(npat_sum(4, 6, 3) == 12);
    assert(npat_sum(4, 6, 4) == 16);
    assert(npat_sum(4, 6, 5) == 19);
    assert(npat(4, 6) == 19);
    assert(npat_sum(4, 7, 0) == 0);
    assert(npat_sum(4, 7, 1) == 2);
    assert(npat_sum(4, 7, 2) == 5);
    assert(npat_sum(4, 7, 3) == 9);
    assert(npat_sum(4, 7, 4) == 14);
    assert(npat_sum(4, 7, 5) == 18);
    assert(npat(4, 7) == 18);
}

/// The counts over ranks 2 to 5.
proof fn lemma_npat_rank5()
    ensures
        npat(5, 0) == 1,
        npat(5, 1) == 4,
        npat(5, 2) == 10,
        npat(5, 3) == 20,
        npat(5, 4) == 35,
        npat(5, 5) == 52,
        npat(5, 6) == 68,
        npat(5, 7) == 80,
{
    lemma_npat_rank4();
    assert(npat_sum(5, 1, 0) == 0);
    assert(npat_sum(5, 1, 1) == 3);
    assert(npat_sum(5, 1, 2) == 4);
    assert(npat(5, 1) == 4);
    assert(npat_sum(5, 2, 0) == 0);
    assert(npat_sum(5, 2, 1) == 6);
    assert(npat_sum(5, 2, 2) == 9);
    assert(npat_sum(5, 2, 3) == 10);
    assert(npat(5, 2) == 10);
    assert(npat_sum(5, 3, 0) == 0);
    assert(npat_sum(5, 3, 1) == 10);
    assert(npat_sum(5, 3, 2) == 16);
    assert(npat_sum(5, 3, 3) == 19);
    assert(npat_sum(5, 3, 4) == 20);
    assert(npat(5, 3) == 20);
    assert(npat_sum(5, 4, 0) == 0);
    assert(npat_sum(5, 4, 1) == 15);
    assert(npat_sum(5, 4, 2) == 25);
    assert(npat_sum(5, 4, 3) == 31);
    assert(npat_sum(5, 4, 4) == 34);
    assert(npat_sum(5, 4, 5) == 35);
    assert(npat(5, 4) == 35);
    assert(npat_sum(5, 5, 0) == 0);
    assert(npat_sum(5, 5, 1) == 18);
    assert(npat_sum(5, 5, 2) == 33);
    assert(npat_sum(5, 5, 3) == 43);
    assert(npat_sum(5, 5, 4) == 49);
    assert(npat_sum(5, 5, 5) == 52);
    assert(npat(5, 5) == 52);
    assert(npat_sum(5, 6, 0) == 0);
    assert(npat_sum(5, 6, 1) == 19);
    assert(npat_sum(5, 6, 2) == 37);
    assert(npat_sum(5, 6, 3) == 52);
    assert(npat_sum(5, 6, 4) == 62);
    assert(npat_sum(5, 6, 5) == 68);
    assert(npat(5, 6) == 68);
    assert(npat_sum(5, 7, 0) == 0);
    assert(npat_sum(5, 7, 1) == 18);
    assert(npat_sum(5, 7, 2) == 37);
    assert(npat_sum(5, 7, 3) == 55);
    assert(npat_sum(5, 7, 4) == 70);
    assert(npat_sum(5, 7, 5) == 80);
    assert(npat(5, 7) == 80);
}

/// The counts over ranks 2 to 6.
proof fn lemma_npat_rank6()
    ensures
        npat(6, 0) == 1,
        npat(6, 1) == 5,
        npat(6, 2) == 15,
        npat(6, 3) == 35,
        npat(6, 4) == 70,
        npat(6, 5) == 121,
        npat(6, 6) == 185,
        npat(6, 7) == 255,
{
    lemma_npat_rank5();
    assert(npat_sum(6, 1, 0) == 0);
    assert(npat_sum(6, 1, 1) == 4);
    assert(npat_sum(6, 1, 2) == 5);
    assert(npat(6, 1) == 5);
    assert(npat_sum(6, 2, 0) == 0);
    assert(npat_sum(6, 2, 1) == 10);
    assert(npat_sum(6, 2, 2) == 14);
    assert(npat_sum(6, 2, 3) == 15);
    assert(npat(6, 2) == 15);
    assert(npat_sum(6, 3, 0) == 0);
    assert(npat_sum(6, 3, 1) == 20);
    assert(npat_sum(6, 3, 2) == 30);
    assert(npat_sum(6, 3, 3) == 34);
    assert(npat_sum(6, 3, 4) == 35);
    assert(npat(6, 3) == 35);
    assert(npat_sum(6, 4, 0) == 0);
    assert(npat_sum(6, 4, 1) == 35);
    assert(npat_sum(6, 4, 2) == 55);
    assert(npat_sum(6, 4, 3) == 65);
    assert(npat_sum(6, 4, 4) == 69);
    assert(npat_sum(6, 4, 5) == 70);
    assert(npat(6, 4) == 70);
    assert(npat_sum(6, 5, 0) == 0);
    assert(npat_sum(6, 5, 1) == 52);
    assert(npat_sum(6, 5, 2) == 87);
    assert(npat_sum(6, 5, 3) == 107);
    assert(npat_sum(6, 5, 4) == 117);
    assert(npat_sum(6, 5, 5) == 121);
    assert(npat(6, 5) == 121);
    assert(npat_sum(6, 6, 0) == 0);
    assert(npat_sum(6, 6, 1) == 68);
    assert(npat_sum(6, 6, 2) == 120);
    assert(npat_sum(6, 6, 3) == 155);
    assert(npat_sum(6, 6, 4) == 175);
    assert(npat_sum(6, 6, 5) == 185);
    assert(npat(6, 6) == 185);
    assert(npat_sum(6, 7, 0) == 0);
    assert(npat_sum(6, 7, 1) == 80);
    assert(npat_sum(6, 7, 2) == 148);
    assert(npat_sum(6, 7, 3) == 200);
    assert(npat_sum(6, 7, 4) == 235);
    assert(npat_sum(6, 7, 5) == 255);
    assert(npat(6, 7) == 255);
}

/// The counts over ranks 2 to 7.
proof fn lemma_npat_rank7()
    ensures
        npat(7, 0) == 1,
        npat(7, 1) == 6,
        npat(7, 2) == 21,
        npat(7, 3) == 56,
        npat(7, 4) == 126,
        npat(7, 5) == 246,
        npat(7, 6) == 426,
        npat(7, 7) == 666,
{
    lemma_npat_rank6();
    assert(npat_sum(7, 1, 0) == 0);
    assert(npat_sum(7, 1, 1) == 5);
    assert(npat_sum(7, 1, 2) == 6);
    assert(npat(7, 1) == 6);
    assert(npat_sum(7, 2, 0) == 0);
    assert(npat_sum(7, 2, 1) == 15);
    assert(npat_sum(7, 2, 2) == 20);
    assert(npat_sum(7, 2, 3) == 21);
    assert(npat(7, 2) == 21);
    assert(npat_sum(7, 3, 0) == 0);
    assert(npat_sum(7, 3, 1) == 35);
    assert(npat_sum(7, 3, 2) == 50);
    assert(npat_sum(7, 3, 3) == 55);
    assert(npat_sum(7, 3, 4) == 56);
    assert(npat(7, 3) == 56);
    assert(npat_sum(7, 4, 0) == 0);
    assert(npat_sum(7, 4, 1) == 70);
    assert(npat_sum(7, 4, 2) == 105);
    assert(npat_sum(7, 4, 3) == 120);
    assert(npat_sum(7, 4, 4) == 125);
    assert(npat_sum(7, 4, 5) == 126);
    assert(npat(7, 4) == 126);
    assert(npat_sum(7, 5, 0) == 0);
    assert(npat_sum(7, 5, 1) == 121);
    assert(npat_sum(7, 5, 2) == 191);
    assert(npat_sum(7, 5, 3) == 226);
    assert(npat_sum(7, 5, 4) == 241);
    assert(npat_sum(7, 5, 5) == 246);
    assert(npat(7, 5) == 246);
    assert(npat_sum(7, 6, 0) == 0);
    assert(npat_sum(7, 6, 1) == 185);
    assert(npat_sum(7, 6, 2) == 306);
    assert(npat_sum(7, 6, 3) == 376);
    assert(npat_sum(7, 6, 4) == 411);
    assert(npat_sum(7, 6, 5) == 426);
    assert(npat(7, 6) == 426);
    assert(npat_sum(7, 7, 0) == 0);
    assert(npat_sum(7, 7, 1) == 255);
    assert(npat_sum(7, 7, 2) == 440);
    assert(npat_sum(7, 7, 3) == 561);
    assert(npat_sum(7, 7, 4) == 631);
    assert(npat_sum(7, 7, 5) == 666);
    assert(npat(7, 7) == 666);
}

/// The counts over ranks 2 to 8.
proof fn lemma_npat_rank8()
    ensures
        npat(8, 0) == 1,
        npat(8, 1) == 7,
        npat(8, 2) == 28,
        npat(8, 3) == 84,
        npat(8, 4) == 210,
        npat(8, 5) == 455,
        npat(8, 6) == 875,
        npat(8, 7) == 1520,
{
    lemma_npat_rank7();
    assert(npat_sum(8, 1, 0) == 0);
    assert(npat_sum(8, 1, 1) == 6);
    assert(npat_sum(8, 1, 2) == 7);
    assert(npat(8, 1) == 7);
    assert(npat_sum(8, 2, 0) == 0);
    assert(npat_sum(8, 2, 1) == 21);
    assert(npat_sum(8, 2, 2) == 27);
    assert(npat_sum(8, 2, 3) == 28);
    assert(npat(8, 2) == 28);
    assert(npat_sum(8, 3, 0) == 0);
    assert(npat_sum(8, 3, 1) == 56);
    assert(npat_sum(8, 3, 2) == 77);
    assert(npat_sum(8, 3, 3) == 83);
    assert(npat_sum(8, 3, 4) == 84);
    assert(npat(8, 3) == 84);
    assert(npat_sum(8, 4, 0) == 0);
    assert(npat_sum(8, 4, 1) == 126);
    assert(npat_sum(8, 4, 2) == 182);
    assert(npat_sum(8, 4, 3) == 203);
    assert(npat_sum(8, 4, 4) == 209);
    assert(npat_sum(8, 4, 5) == 210);
    assert(npat(8, 4) == 210);
    assert(npat_sum(8, 5, 0) == 0);
    assert(npat_sum(8, 5, 1) == 246);
    assert(npat_sum(8, 5, 2) == 372);
    assert(npat_sum(8, 5, 3) == 428);
    assert(npat_sum(8, 5, 4) == 449);
    assert(npat_sum(8, 5, 5) == 455);
    assert(npat(8, 5) == 455);
    assert(npat_sum(8, 6, 0) == 0);
    assert(npat_sum(8, 6, 1) == 426);
    assert(npat_sum(8, 6, 2) == 672);
    assert(npat_sum(8, 6, 3) == 798);
    assert(npat_sum(8, 6, 4) == 854);
    assert(npat_sum(8, 6, 5) == 875);
    assert(npat(8, 6) == 875);
    assert(npat_sum(8, 7, 0) == 0);
    assert(npat_sum(8, 7, 1) == 666);
    assert(npat_sum(8, 7, 2) == 1092);
    assert(npat_sum(8, 7, 3) == 1338);
    assert(npat_sum(8, 7, 4) == 1464);
    assert(npat_sum(8, 7, 5) == 1520);
    assert(npat(8, 7) == 1520);
}

/// The counts over ranks 2 to 9.
proof fn lemma_npat_rank9()
    ensures
        npat(9, 0) == 1,
        npat(9, 1) == 8,
        npat(9, 2) == 36,
        npat(9, 3) == 120,
        npat(9, 4) == 330,
        npat(9, 5) == 784,
        npat(9, 6) == 1652,
        npat(9, 7) == 3144,
{
    lemma_npat_rank8();
    assert(npat_sum(9, 1, 0) == 0);
    assert(npat_sum(9, 1, 1) == 7);
    assert(npat_sum(9, 1, 2) == 8);
    assert(npat(9, 1) == 8);
    assert(npat_sum(9, 2, 0) == 0);
    assert(npat_sum(9, 2, 1) == 28);
    assert(npat_sum(9, 2, 2) == 35);
    assert(npat_sum(9, 2, 3) == 36);
    assert(npat(9, 2) == 36);
    assert(npat_sum(9, 3, 0) == 0);
    assert(npat_sum(9, 3, 1) == 84);
    assert(npat_sum(9, 3, 2) == 112);
    assert(npat_sum(9, 3, 3) == 119);
    assert(npat_sum(9, 3, 4) == 120);
    assert(npat(9, 3) == 120);
    assert(npat_sum(9, 4, 0) == 0);
    assert(npat_sum(9, 4, 1) == 210);
    assert(npat_sum(9, 4, 2) == 294);
    assert(npat_sum(9, 4, 3) == 322);
    assert(npat_sum(9, 4, 4) == 329);
    assert(npat_sum(9, 4, 5) == 330);
    assert(npat(9, 4) == 330);
    assert(npat_sum(9, 5, 0) == 0);
    assert(npat_sum(9, 5, 1) == 455);
    assert(npat_sum(9, 5, 2) == 665);
    assert(npat_sum(9, 5, 3) == 749);
    assert(npat_sum(9, 5, 4) == 777);
    assert(npat_sum(9, 5, 5) == 784);
    assert(npat(9, 5) == 784);
    assert(npat_sum(9, 6, 0) == 0);
    assert(npat_sum(9, 6, 1) == 875);
    assert(npat_sum(9, 6, 2) == 1330);
    assert(npat_sum(9, 6, 3) == 1540);
    assert(npat_sum(9, 6, 4) == 1624);
    assert(npat_sum(9, 6, 5) == 1652);
    assert(npat(9, 6) == 1652);
    assert(npat_sum(9, 7, 0) == 0);
    assert(npat_sum(9, 7, 1) == 1520);
    assert(npat_sum(9, 7, 2) == 2395);
    assert(npat_sum(9, 7, 3) == 2850);
    assert(npat_sum(9, 7, 4) == 3060);
    assert(npat_sum(9, 7, 5) == 3144);
    assert(npat(9, 7) == 3144);
}

/// The counts over ranks 2 to 10.
proof fn lemma_npat_rank10()
    ensures
        npat(10, 0) == 1,
        npat(10, 1) == 9,
        npat(10, 2) == 45,
        npat(10, 3) == 165,
        npat(10, 4) == 495,
        npat(10, 5) == 1278,
        npat(10, 6) == 2922,
        npat(10, 7) == 6030,
{
    lemma_npat_rank9();
    assert(npat_sum(10, 1, 0) == 0);
    assert(npat_sum(10, 1, 1) == 8);
    assert(npat_sum(10, 1, 2) == 9);
    assert(npat(10, 1) == 9);
    assert(npat_sum(10, 2, 0) == 0);
    assert(npat_sum(10, 2, 1) == 36);
    assert(npat_sum(10, 2, 2) == 44);
    assert(npat_sum(10, 2, 3) == 45);
    assert(npat(10, 2) == 45);
    assert(npat_sum(10, 3, 0) == 0);
    assert(npat_sum(10, 3, 1) == 120);
    assert(npat_sum(10, 3, 2) == 156);
    assert(npat_sum(10, 3, 3) == 164);
    assert(npat_sum(10, 3, 4) == 165);
    assert(npat(10, 3) == 165);
    assert(npat_sum(10, 4, 0) == 0);
    assert(npat_sum(10, 4, 1) == 330);
    assert(npat_sum(10, 4, 2) == 450);
    assert(npat_sum(10, 4, 3) == 486);
    assert(npat_sum(10, 4, 4) == 494);
    assert(npat_sum(10, 4, 5) == 495);
    assert(npat(10, 4) == 495);
    assert(npat_sum(10, 5, 0) == 0);
    assert(npat_sum(10, 5, 1) == 784);
    assert(npat_sum(10, 5, 2) == 1114);
    assert(npat_sum(10, 5, 3) == 1234);
    assert(npat_sum(10, 5, 4) == 1270);
    assert(npat_sum(10, 5, 5) == 1278);
    assert(npat(10, 5) == 1278);
    assert(npat_sum(10, 6, 0) == 0);
    assert(npat_sum(10, 6, 1) == 1652);
    assert(npat_sum(10, 6, 2) == 2436);
    assert(npat_sum(10, 6, 3) == 2766);
    assert(npat_sum(10, 6, 4) == 2886);
    assert(npat_sum(10, 6, 5) == 2922);
    assert(npat(10, 6) == 2922);
    assert(npat_sum(10, 7, 0) == 0);
    assert(npat_sum(10, 7, 1) == 3144);
    assert(npat_sum(10, 7, 2) == 4796);
    assert(npat_sum(10, 7, 3) == 5580);
    assert(npat_sum(10, 7, 4) == 5910);
    assert(npat_sum(10, 7, 5) == 6030);
    assert(npat(10, 7) == 6030);
}

/// The counts over ranks 2 to 11.
proof fn lemma_npat_rank11()
    ensures
        npat(11, 0) == 1,
        npat(11, 1) == 10,
        npat(11, 2) == 55,
        npat(11, 3) == 220,
        npat(11, 4) == 715,
        npat(11, 5) == 1992,
        npat(11, 6) == 4905,
        npat(11, 7) == 10890,
{
    lemma_npat_rank10();
    assert(npat_sum(11, 1, 0) == 0);
    assert(npat_sum(11, 1, 1) == 9);
    assert(npat_sum(11, 1, 2) == 10);
    assert(npat(11, 1) == 10);
    assert(npat_sum(11, 2, 0) == 0);
    assert(npat_sum(11, 2, 1) == 45);
    assert(npat_sum(11, 2, 2) == 54);
    assert(npat_sum(11, 2, 3) == 55);
    assert(npat(11, 2) == 55);
    assert(npat_sum(11, 3, 0) == 0);
    assert(npat_sum(11, 3, 1) == 165);
    assert(npat_sum(11, 3, 2) == 210);
    assert(npat_sum(11, 3, 3) == 219);
    assert(npat_sum(11, 3, 4) == 220);
    assert(npat(11, 3) == 220);
    assert(npat_sum(11, 4, 0) == 0);
    assert(npat_sum(11, 4, 1) == 495);
    assert(npat_sum(11, 4, 2) == 660);
    assert(npat_sum(11, 4, 3) == 705);
    assert(npat_sum(11, 4, 4) == 714);
    assert(npat_sum(11, 4, 5) == 715);
    assert(npat(11, 4) == 715);
    assert(npat_sum(11, 5, 0) == 0);
    assert(npat_sum(11, 5, 1) == 1278);
    assert(npat_sum(11, 5, 2) == 1773);
    assert(npat_sum(11, 5, 3) == 1938);
    assert(npat_sum(11, 5, 4) == 1983);
    assert(npat_sum(11, 5, 5) == 1992);
    assert(npat(11, 5) == 1992);
    assert(npat_sum(11, 6, 0) == 0);
    assert(npat_sum(11, 6, 1) == 2922);
    assert(npat_sum(11, 6, 2) == 4200);
    assert(npat_sum(11, 6, 3) == 4695);
    assert(npat_sum(11, 6, 4) == 4860);
    assert(npat_sum(11, 6, 5) == 4905);
    assert(npat(11, 6) == 4905);
    assert(npat_sum(11, 7, 0) == 0);
    assert(npat_sum(11, 7, 1) == 6030);
    assert(npat_sum(11, 7, 2) == 8952);
    assert(npat_sum(11, 7, 3) == 10230);
    assert(npat_sum(11, 7, 4) == 10725);
    assert(npat_sum(11, 7, 5) == 10890);
    assert(npat(11, 7) == 10890);
}

/// The counts over ranks 2 to 12.
proof fn lemma_npat_rank12()
    ensures
        npat(12, 0) == 1,
        npat(12, 1) == 11,
        npat(12, 2) == 66,
        npat(12, 3) == 286,
        npat(12, 4) == 1001,
        npat(12, 5) == 2992,
        npat(12, 6) == 7887,
        npat(12, 7) == 18722,
{
    lemma_npat_rank11();
    assert(npat_sum(12, 1, 0) == 0);
    assert(npat_sum(12, 1, 1) == 10);
    assert(npat_sum(12, 1, 2) == 11);
    assert(npat(12, 1) == 11);
    assert(npat_sum(12, 2, 0) == 0);
    assert(npat_sum(12, 2, 1) == 55);
    assert(npat_sum(12, 2, 2) == 65);
    assert(npat_sum(12, 2, 3) == 66);
    assert(npat(12, 2) == 66);
    assert(npat_sum(12, 3, 0) == 0);
    assert(npat_sum(12, 3, 1) == 220);
    assert(npat_sum(12, 3, 2) == 275);
    assert(npat_sum(12, 3, 3) == 285);
    assert(npat_sum(12, 3, 4) == 286);
    assert(npat(12, 3) == 286);
    assert(npat_sum(12, 4, 0) == 0);
    assert(npat_sum(12, 4, 1) == 715);
    assert(npat_sum(12, 4, 2) == 935);
    assert(npat_sum(12, 4, 3) == 990);
    assert(npat_sum(12, 4, 4) == 1000);
    assert(npat_sum(12, 4, 5) == 1001);
    assert(npat(12, 4) == 1001);
    assert(npat_sum(12, 5, 0) == 0);
    assert(npat_sum(12, 5, 1) == 1992);
    assert(npat_sum(12, 5, 2) == 2707);
    assert(npat_sum(12, 5, 3) == 2927);
    assert(npat_sum(12, 5, 4) == 2982);
    assert(npat_sum(12, 5, 5) == 2992);
    assert(npat(12, 5) == 2992);
    assert(npat_sum(12, 6, 0) == 0);
    assert(npat_sum(12, 6, 1) == 4905);
    assert(npat_sum(12, 6, 2) == 6897);
    assert(npat_sum(12, 6, 3) == 7612);
    assert(npat_sum(12, 6, 4) == 7832);
    assert(npat_sum(12, 6, 5) == 7887);
    assert(npat(12, 6) == 7887);
    assert(npat_sum(12, 7, 0) == 0);
    assert(npat_sum(12, 7, 1) == 10890);
    assert(npat_sum(12, 7, 2) == 15795);
    assert(npat_sum(12, 7, 3) == 17787);
    assert(npat_sum(12, 7, 4) == 18502);
    assert(npat_sum(12, 7, 5) == 18722);
    assert(npat(12, 7) == 18722);
}

/// The counts over ranks 2 to 13.
proof fn lemma_npat_rank13()
    ensures
        npat(13, 0) == 1,
        npat(13, 1) == 12,
        npat(13, 2) == 78,
        npat(13, 3) == 364,
        npat(13, 4) == 1365,
        npat(13, 5) == 4356,
        npat(13, 6) == 12232,
        npat(13, 7) == 30888,
{
    lemma_npat_rank12();
    assert(npat_sum(13, 1, 0) == 0);
    assert(npat_sum(13, 1, 1) == 11);
    assert(npat_sum(13, 1, 2) == 12);
    assert(npat(13, 1) == 12);
    assert(npat_sum(13, 2, 0) == 0);
    assert(npat_sum(13, 2, 1) == 66);
    assert(npat_sum(13, 2, 2) == 77);
    assert(npat_sum(13, 2, 3) == 78);
    assert(npat(13, 2) == 78);
    assert(npat_sum(13, 3, 0) == 0);
    assert(npat_sum(13, 3, 1) == 286);
    assert(npat_sum(13, 3, 2) == 352);
    assert(npat_sum(13, 3, 3) == 363);
    assert(npat_sum(13, 3, 4) == 364);
    assert(npat(13, 3) == 364);
    assert(npat_sum(13, 4, 0) == 0);
    assert(npat_sum(13, 4, 1) == 1001);
    assert(npat_sum(13, 4, 2) == 1287);
    assert(npat_sum(13, 4, 3) == 1353);
    assert(npat_sum(13, 4, 4) == 1364);
    assert(npat_sum(13, 4, 5) == 1365);
    assert(npat(13, 4) == 1365);
    assert(npat_sum(13, 5, 0) == 0);
    assert(npat_sum(13, 5, 1) == 2992);
    assert(npat_sum(13, 5, 2) == 3993);
    assert(npat_sum(13, 5, 3) == 4279);
    assert(npat_sum(13, 5, 4) == 4345);
    assert(npat_sum(13, 5, 5) == 4356);
    assert(npat(13, 5) == 4356);
    assert(npat_sum(13, 6, 0) == 0);
    assert(npat_sum(13, 6, 1) == 7887);
    assert(npat_sum(13, 6, 2) == 10879);
    assert(npat_sum(13, 6, 3) == 11880);
    assert(npat_sum(13, 6, 4) == 12166);
    assert(npat_sum(13, 6, 5) == 12232);
    assert(npat(13, 6) == 12232);
    assert(npat_sum(13, 7, 0) == 0);
    assert(npat_sum(13, 7, 1) == 18722);
    assert(npat_sum(13, 7, 2) == 26609);
    assert(npat_sum(13, 7, 3) == 29601);
    assert(npat_sum(13, 7, 4) == 30602);
    assert(npat_sum(13, 7, 5) == 30888);
    assert(npat(13, 7) == 30888);
}

/// The counts over ranks 2 to 14.
proof fn lemma_npat_rank14()
    ensures
        npat(14, 0) == 1,
        npat(14, 1) == 13,
        npat(14, 2) == 91,
        npat(14, 3) == 455,
        npat(14, 4) == 1820,
        npat(14, 5) == 6175,
        npat(14, 6) == 18395,
        npat(14, 7) == 49205,
{
    lemma_npat_rank13();
    assert(npat_sum(14, 1, 0) == 0);
    assert(npat_sum(14, 1, 1) == 12);
    assert(npat_sum(14, 1, 2) == 13);
    assert(npat(14, 1) == 13);
    assert(npat_sum(14, 2, 0) == 0);
    assert(npat_sum(14, 2, 1) == 78);
    assert(npat_sum(14, 2, 2) == 90);
    assert(npat_sum(14, 2, 3) == 91);
    assert(npat(14, 2) == 91);
    assert(npat_sum(14, 3, 0) == 0);
    assert(npat_sum(14, 3, 1) == 364);
    assert(npat_sum(14, 3, 2) == 442);
    assert(npat_sum(14, 3, 3) == 454);
    assert(npat_sum(14, 3, 4) == 455);
    assert(npat(14, 3) == 455);
    assert(npat_sum(14, 4, 0) == 0);
    assert(npat_sum(14, 4, 1) == 1365);
    assert(npat_sum(14, 4, 2) == 1729);
    assert(npat_sum(14, 4, 3) == 1807);
    assert(npat_sum(14, 4, 4) == 1819);
    assert(npat_sum(14, 4, 5) == 1820);
    assert(npat(14, 4) == 1820);
    assert(npat_sum(14, 5, 0) == 0);
    assert(npat_sum(14, 5, 1) == 4356);
    assert(npat_sum(14, 5, 2) == 5721);
    assert(npat_sum(14, 5, 3) == 6085);
    assert(npat_sum(14, 5, 4) == 6163);
    assert(npat_sum(14, 5, 5) == 6175);
    assert(npat(14, 5) == 6175);
    assert(npat_sum(14, 6, 0) == 0);
    assert(npat_sum(14, 6, 1) == 12232);
    assert(npat_sum(14, 6, 2) == 16588);
    assert(npat_sum(14, 6, 3) == 17953);
    assert(npat_sum(14, 6, 4) == 18317);
    assert(npat_sum(14, 6, 5) == 18395);
    assert(npat(14, 6) == 18395);
    assert(npat_sum(14, 7, 0) == 0);
    assert(npat_sum(14, 7, 1) == 30888);
    assert(npat_sum(14, 7, 2) == 43120);
    assert(npat_sum(14, 7, 3) == 47476);
    assert(npat_sum(14, 7, 4) == 48841);
    assert(npat_sum(14, 7, 5) == 49205);
    assert(npat(14, 7) == 49205);
}

/// Sum of the table entries from `lo` up to `hi`.
pub open spec fn sum_upto(g: Seq<u8>, lo: int, hi: int) -> int
    decreases hi - lo + 1,
{
    if hi < lo {
        0
    } else {
        sum_upto(g, lo, hi - 1) + g[hi]
    }
}

/// `g` is a count table that agrees with `f` above `rank`, has entries at most 4 from 2 up to
/// `rank` summing to `rem`, and zeros at 0 and 1.
pub open spec fn completes(g: Seq<u8>, f: Seq<u8>, rank: int, rem: int) -> bool {
    &&& g.len() == 15
    &&& g[0] == 0
    &&& g[1] == 0
    &&& forall|r: int| rank < r < 15 ==> g[r] == f[r]
    &&& forall|r: int| 2 <= r <= rank ==> g[r] <= 4
    &&& sum_upto(g, 2, rank) == rem
}

/// `k` is the key of some completion of `f` above `rank` whose entry at `rank` is below `lim`.
pub open spec fn completion_key(k: u64, f: Seq<u8>, rank: int, rem: int, lim: int) -> bool {
    exists|g: Seq<u8>| #[trigger] completes(g, f, rank, rem) && g[rank] < lim && fkey(g, 2) == k
}

/// Tables whose entries from `lo` to 14 are at most 4 and whose keys agree agree on those
/// entries.
pub proof fn lemma_fkey_injective(f: Seq<u8>, g: Seq<u8>, lo: int)
    requires
        0 <= lo <= 15,
        f.len() == 15,
        g.len() == 15,
        forall|r: int| lo <= r < 15 ==> f[r] <= 4 && g[r] <= 4,
        fkey(f, lo) == fkey(g, lo),
    ensures
        forall|r: int| lo <= r < 15 ==> f[r] == g[r],
    decreases 15 - lo,
{
    if lo <= 14 {
        lemma_fkey_bound(f, lo + 1);
        lemma_fkey_bound(g, lo + 1);
        let a = fkey(f, lo + 1);
        let b = fkey(g, lo + 1);
        assert(a * 5 + f[lo] == b * 5 + g[lo]);
        assert(a == b && f[lo] == g[lo]) by (nonlinear_arith)
            requires
                a * 5 + f[lo] == b * 5 + g[lo],
                0 <= f[lo] <= 4,
                0 <= g[lo] <= 4,
        ;
        lemma_fkey_injective(f, g, lo + 1);
    }
}

/// Tables that agree on entries `lo` to 14 have the same key.
pub proof fn lemma_fkey_agree(f: Seq<u8>, g: Seq<u8>, lo: int)
    requires
        0 <= lo <= 15,
        forall|r: int| lo <= r < 15 ==> f[r] == g[r],
    ensures
        fkey(f, lo) == fkey(g, lo),
    decreases 15 - lo,
{
    if lo <= 14 {
        lemma_fkey_agree(f, g, lo + 1);
    }
}

/// Filling an empty slot adds one to the number of slots in use.
pub proof fn lemma_count_used_update(keys: Seq<u64>, p: int, k: u64)
    requires
        0 <= p < keys.len(),
        keys[p] == EMPTY_KEY,
        k != EMPTY_KEY,
    ensures
        count_used(keys.update(p, k)) == count_used(keys) + 1,
    decreases keys.len(),
{
    let u = keys.update(p, k);
    if p == keys.len() - 1 {
        assert(u.drop_last() =~= keys.drop_last());
    } else {
        assert(u.drop_last() =~= keys.drop_last().update(p, k));
        lemma_count_used_update(keys.drop_last(), p, k);
    }
}

/// Fewer slots in use than slots means some slot is empty.
pub proof fn lemma_count_used_empty(keys: Seq<u64>)
    requires
        count_used(keys) < keys.len(),
    ensures
        exists|e: int| 0 <= e < keys.len() && keys[e] == EMPTY_KEY,
    decreases keys.len(),
{
    if keys.last() != EMPTY_KEY {
        lemma_count_used_empty(keys.drop_last());
        let e = choose|e: int| 0 <= e < keys.len() - 1 && keys.drop_last()[e] == EMPTY_KEY;
        assert(keys[e] == EMPTY_KEY);
    } else {
        assert(keys[keys.len() - 1] == EMPTY_KEY);
    }
}

/// An empty table is well formed and uses no slot.
pub proof fn lemma_empty_keys(keys: Seq<u64>)
    requires
        forall|p: int| 0 <= p < keys.len() ==> keys[p] == EMPTY_KEY,
    ensures
        count_used(keys) == 0,
        keys.len() == 131072 ==> keys_wf(keys),
    decreases keys.len(),
{
    if keys.len() > 0 {
        lemma_empty_keys(keys.drop_last());
    }
}

/// Storing a new key in the first empty slot after its home slot keeps the table well formed.
pub proof fn lemma_insert_wf(keys: Seq<u64>, p: int, k: u64)
    requires
        keys_wf(keys),
        is_first_with(keys, ht_slot_spec(k), EMPTY_KEY, p),
        k != EMPTY_KEY,
        forall|q: int| 0 <= q < 131072 ==> keys[q] != k,
    ensures
        keys_wf(keys.update(p, k)),
{
    let u = keys.update(p, k);
    assert forall|a: int, b: int|
        0 <= a < 131072 && 0 <= b < 131072 && #[trigger] u[a] != EMPTY_KEY && slot_dist(
            ht_slot_spec(u[a]),
            b,
        ) < slot_dist(ht_slot_spec(u[a]), a) implies #[trigger] u[b] != EMPTY_KEY by {
        if a == p {
        } else {
            assert(keys[a] != EMPTY_KEY);
            assert(keys[b] != EMPTY_KEY);
        }
    }
    assert forall|a: int, b: int|
        0 <= a < 131072 && 0 <= b < 131072 && a != b && u[a] != EMPTY_KEY implies #[trigger] u[a]
        != #[trigger] u[b] by {
        if a == p {
            assert(keys[b] != k || b == p);
        } else if b == p {
            assert(keys[a] != k);
        } else {
        }
    }
}

/// In a well-formed table, probing from a key's home slot finds the slot that holds it.
pub proof fn lemma_lookup_wf(keys: Seq<u64>, p: int)
    requires
        keys_wf(keys),
        0 <= p < 131072,
        keys[p] != EMPTY_KEY,
    ensures
        first_with(keys, ht_slot_spec(keys[p]), keys[p]) == p,
{
    let k = keys[p];
    let h = ht_slot_spec(k);
    assert(0 <= h < 131072) by {
        let hh = vstd::wrapping::u64_specs::wrapping_mul(k, 0x9e3779b97f4a7c15u64);
        assert((hh ^ (hh >> 32u64)) & 131071u64 <= 131071u64) by (bit_vector);
    }
    assert(is_first_with(keys, h, k, p));
    lemma_first_with_unique(keys, h, k, p);
}

/// Sums of zero entries are zero.
pub proof fn lemma_sum_upto_zero(g: Seq<u8>, lo: int, hi: int)
    requires
        forall|r: int| lo <= r <= hi ==> g[r] == 0,
    ensures
        sum_upto(g, lo, hi) == 0,
    decreases hi - lo + 1,
{
    if hi >= lo {
        lemma_sum_upto_zero(g, lo, hi - 1);
    }
}

/// Sums of tables that agree on a range agree.
pub proof fn lemma_sum_upto_agree(f: Seq<u8>, g: Seq<u8>, lo: int, hi: int)
    requires
        forall|r: int| lo <= r <= hi ==> f[r] == g[r],
    ensures
        sum_upto(f, lo, hi) == sum_upto(g, lo, hi),
    decreases hi - lo + 1,
{
    if hi >= lo {
        lemma_sum_upto_agree(f, g, lo, hi - 1);
    }
}

/// Entries in a range are at most the sum of the range.
pub proof fn lemma_sum_upto_entry(g: Seq<u8>, lo: int, hi: int, r: int)
    requires
        lo <= r <= hi,
    ensures
        g[r] <= sum_upto(g, lo, hi),
    decreases hi - lo + 1,
{
    if hi > r {
        lemma_sum_upto_entry(g, lo, hi - 1, r);
        assert(sum_upto(g, lo, hi) == sum_upto(g, lo, hi - 1) + g[hi]);
    } else {
        assert(sum_upto(g, lo, hi - 1) >= 0) by {
            lemma_sum_upto_nonneg(g, lo, hi - 1);
        }
    }
}

/// Sums of bytes are not negative.
pub proof fn lemma_sum_upto_nonneg(g: Seq<u8>, lo: int, hi: int)
    ensures
        sum_upto(g, lo, hi) >= 0,
    decreases hi - lo + 1,
{
    if hi >= lo {
        lemma_sum_upto_nonneg(g, lo, hi - 1);
    }
}

/// The sum from `lo` to 14 splits at `mid`.
pub proof fn lemma_fsum_split(f: Seq<u8>, lo: int, mid: int)
    requires
        0 <= lo <= mid <= 15,
    ensures
        fsum(f, lo) == sum_upto(f, lo, mid - 1) + fsum(f, mid),
    decreases mid - lo,
{
    if lo < mid {
        lemma_fsum_split(f, lo + 1, mid);
        lemma_sum_upto_shift(f, lo, mid - 1);
    }
}

/// A sum over a range is its first entry plus the sum over the rest.
pub proof fn lemma_sum_upto_shift(f: Seq<u8>, lo: int, hi: int)
    requires
        lo <= hi,
    ensures
        sum_upto(f, lo, hi) == f[lo] + sum_upto(f, lo + 1, hi),
    decreases hi - lo,
{
    if hi > lo {
        lemma_sum_upto_shift(f, lo, hi - 1);
    } else {
        assert(sum_upto(f, lo, lo - 1) == 0);
        assert(sum_upto(f, lo + 1, lo) == 0);
    }
}

/// Sums of tables that agree from `lo` up agree.
pub proof fn lemma_fsum_agree(f: Seq<u8>, g: Seq<u8>, lo: int)
    requires
        forall|r: int| lo <= r < 15 ==> f[r] == g[r],
    ensures
        fsum(f, lo) == fsum(g, lo),
    decreases 15 - lo,
{
    if 0 <= lo < 15 {
        lemma_fsum_agree(f, g, lo + 1);
    }
}

/// Partial sums of table counts grow with the number of terms.
pub proof fn lemma_npat_sum_mono(rank: int, rem: int, k: int, k2: int)
    requires
        0 <= k <= k2 <= 5,
    ensures
        npat_sum(rank, rem, k) <= npat_sum(rank, rem, k2),
    decreases k2 - k,
{
    if k < k2 {
        lemma_npat_sum_mono(rank, rem, k, k2 - 1);
    }
}

/// Fixing the entry at `rank` to `v` turns completions below `rank` into completions at `rank`
/// with that entry.
pub proof fn lemma_completes_split(g: Seq<u8>, f: Seq<u8>, rank: int, rem: int, v: u8)
    requires
        2 <= rank <= 14,
        f.len() == 15,
        v <= 4,
    ensures
        completes(g, f.update(rank, v), rank - 1, rem - v) <==> (completes(g, f, rank, rem) && g[rank]
            == v),
{
    assert(sum_upto(g, 2, rank) == sum_upto(g, 2, rank - 1) + g[rank]);
}

/// A key of a completion is never the empty-slot key.
pub proof fn lemma_fkey_not_empty(g: Seq<u8>)
    ensures
        0 <= fkey(g, 2) < EMPTY_KEY,
{
    lemma_fkey_bound(g, 2);
    lemma_pow5_13();
}

/// Whether slot arrays `keys`/`vals` hold `key` with `val` in some slot.
pub open spec fn maps_in(keys: Seq<u64>, vals: Seq<u32>, key: u64, val: u32) -> bool {
    exists|p: int| 0 <= p < 131072 && keys[p] == key && vals[p] == val
}

/// No slot of `keys` holds the key of a completion of `f`.
pub open spec fn avoids(keys: Seq<u64>, f: Seq<u8>, rank: int, rem: int) -> bool {
    forall|g: Seq<u8>, p: int|
        #![trigger completes(g, f, rank, rem), keys[p]]
        completes(g, f, rank, rem) && 0 <= p < 131072 ==> keys[p] != fkey(g, 2)
}

/// Every slot in use in `k0` holds the same key and value in `k1`/`v1`.
pub open spec fn keeps(k0: Seq<u64>, v0: Seq<u32>, k1: Seq<u64>, v1: Seq<u32>) -> bool {
    forall|p: int|
        0 <= p < 131072 && k0[p] != EMPTY_KEY ==> k1[p] == k0[p] && v1[p] == v0[p]
}

/// Every slot in use in `k1` but empty in `k0` holds the key of a completion of `f` whose entry
/// at `rank` is below `lim`.
pub open spec fn only_completions(
    k0: Seq<u64>,
    k1: Seq<u64>,
    f: Seq<u8>,
    rank: int,
    rem: int,
    lim: int,
) -> bool {
    forall|p: int|
        0 <= p < 131072 && #[trigger] k1[p] != EMPTY_KEY && k0[p] == EMPTY_KEY ==> completion_key(
            k1[p],
            f,
            rank,
            rem,
            lim,
        )
}

/// Every completion of `f` whose entry at `rank` is below `lim` is stored with its score.
pub open spec fn stores_below(
    keys: Seq<u64>,
    vals: Seq<u32>,
    f: Seq<u8>,
    rank: int,
    rem: int,
    lim: int,
) -> bool {
    forall|g: Seq<u8>|
        #[trigger] completes(g, f, rank, rem) && g[rank] < lim ==> maps_in(
            keys,
            vals,
            fkey(g, 2) as u64,
            non_flush_code(g) as u32,
        )
}

/// Before the step for entry `v` at `rank`, the table avoids every completion with that entry.
pub proof fn lemma_step_avoids(
    f0: Seq<u8>,
    rank: int,
    rem: int,
    v: u8,
    k0: Seq<u64>,
    v0: Seq<u32>,
    k1: Seq<u64>,
    v1: Seq<u32>,
)
    requires
        f0.len() == 15,
        2 <= rank <= 14,
        v <= 4,
        forall|r: int| 0 <= r < 15 ==> f0[r] <= 4,
        avoids(k0, f0, rank, rem),
        keeps(k0, v0, k1, v1),
        only_completions(k0, k1, f0, rank, rem, v as int),
    ensures
        avoids(k1, f0.update(rank, v), rank - 1, rem - v),
{
    let nf = f0.update(rank, v);
    assert forall|g: Seq<u8>, p: int|
        #![trigger completes(g, nf, rank - 1, rem - v), k1[p]]
        completes(g, nf, rank - 1, rem - v) && 0 <= p < 131072 implies k1[p] != fkey(g, 2) by {
        lemma_completes_split(g, f0, rank, rem, v);
        lemma_fkey_not_empty(g);
        if k0[p] != EMPTY_KEY {
            assert(completes(g, f0, rank, rem));
            assert(k0[p] != fkey(g, 2));
        } else if k1[p] != EMPTY_KEY {
            assert(completion_key(k1[p], f0, rank, rem, v as int));
            let g2 = choose|g2: Seq<u8>|
                #[trigger] completes(g2, f0, rank, rem) && g2[rank] < v && fkey(g2, 2) == k1[p];
            if fkey(g, 2) == k1[p] {
                lemma_fkey_injective(g, g2, 2);
            }
        }
    }
}

/// After the step for entry `v` at `rank`, what held below `v` holds below `v + 1`.
pub proof fn lemma_step_done(
    f0: Seq<u8>,
    rank: int,
    rem: int,
    v: u8,
    k0: Seq<u64>,
    v0: Seq<u32>,
    k1: Seq<u64>,
    v1: Seq<u32>,
    k2: Seq<u64>,
    v2: Seq<u32>,
)
    requires
        f0.len() == 15,
        2 <= rank <= 14,
        v <= 4,
        keeps(k0, v0, k1, v1),
        only_completions(k0, k1, f0, rank, rem, v as int),
        stores_below(k1, v1, f0, rank, rem, v as int),
        keeps(k1, v1, k2, v2),
        only_completions(k1, k2, f0.update(rank, v), rank - 1, rem - v, 5),
        forall|g: Seq<u8>|
            #[trigger] completes(g, f0.update(rank, v), rank - 1, rem - v) ==> maps_in(
                k2,
                v2,
                fkey(g, 2) as u64,
                non_flush_code(g) as u32,
            ),
    ensures
        keeps(k0, v0, k2, v2),
        only_completions(k0, k2, f0, rank, rem, v + 1),
        stores_below(k2, v2, f0, rank, rem, v + 1),
{
    let nf = f0.update(rank, v);
    assert forall|p: int|
        0 <= p < 131072 && #[trigger] k2[p] != EMPTY_KEY && k0[p] == EMPTY_KEY implies completion_key(
        k2[p],
        f0,
        rank,
        rem,
        v + 1,
    ) by {
        if k1[p] != EMPTY_KEY {
            assert(completion_key(k1[p], f0, rank, rem, v as int));
            let g2 = choose|g2: Seq<u8>|
                #[trigger] completes(g2, f0, rank, rem) && g2[rank] < v && fkey(g2, 2) == k1[p];
            assert(completes(g2, f0, rank, rem) && g2[rank] < v + 1 && fkey(g2, 2) == k2[p]);
        } else {
            assert(completion_key(k2[p], nf, rank - 1, rem - v, 5));
            let g2 = choose|g2: Seq<u8>|
                #[trigger] completes(g2, nf, rank - 1, rem - v) && g2[rank - 1] < 5 && fkey(g2, 2)
                    == k2[p];
            lemma_completes_split(g2, f0, rank, rem, v);
            assert(completes(g2, f0, rank, rem) && g2[rank] < v + 1 && fkey(g2, 2) == k2[p]);
        }
    }
    assert forall|g: Seq<u8>|
        #[trigger] completes(g, f0, rank, rem) && g[rank] < v + 1 implies maps_in(
        k2,
        v2,
        fkey(g, 2) as u64,
        non_flush_code(g) as u32,
    ) by {
        if g[rank] < v {
            assert(maps_in(k1, v1, fkey(g, 2) as u64, non_flush_code(g) as u32));
            let p = choose|p: int|
                0 <= p < 131072 && k1[p] == fkey(g, 2) as u64 && v1[p] == non_flush_code(g) as u32;
            lemma_fkey_not_empty(g);
            assert(k2[p] == k1[p] && v2[p] == v1[p]);
        } else {
            lemma_completes_split(g, f0, rank, rem, v);
            assert(completes(g, nf, rank - 1, rem - v));
        }
    }
}

/// Stores the one completion of a table with no card left to place: the table itself.
fn store_pattern(rank: usize, freq: &[u8; 15], table: &mut NonFlushTable)
    requires
        1 <= rank <= 14,
        forall|r: int| 0 <= r <= rank ==> freq@[r] == 0,
        forall|r: int| 0 <= r < 15 ==> freq@[r] <= 4,
        fsum(freq@, rank + 1) == 7,
        old(table).well_formed(),
        count_used(old(table).keys@) + 1 < 131072,
        avoids(old(table).keys@, freq@, rank as int, 0),
    ensures
        final(table).well_formed(),
        count_used(final(table).keys@) == count_used(old(table).keys@) + 1,
        keeps(old(table).keys@, old(table).vals@, final(table).keys@, final(table).vals@),
        only_completions(old(table).keys@, final(table).keys@, freq@, rank as int, 0, 5),
        forall|g: Seq<u8>|
            #[trigger] completes(g, freq@, rank as int, 0) ==> maps_in(
                final(table).keys@,
                final(table).vals@,
                fkey(g, 2) as u64,
                non_flush_code(g) as u32,
            ),
{
    let ghost f0 = freq@;
    let ghost t0 = *table;
    let key = freq_key(freq);
    proof {
        lemma_fsum_split(f0, 2, rank as int + 1);
        lemma_sum_upto_zero(f0, 2, rank as int);
        lemma_groups_top_len(f0, 2);
        lemma_count_used_empty(t0.keys@);
        lemma_fkey_not_empty(f0);
        assert(completes(f0, f0, rank as int, 0));
    }
    let val = eval_non_flush(freq);
    table.insert(key, val);
    proof {
        let p = first_with(t0.keys@, ht_slot_spec(key), EMPTY_KEY);
        assert forall|q: int| 0 <= q < 131072 implies t0.keys@[q] != key by {
            assert(completes(f0, f0, rank as int, 0));
        }
        lemma_insert_wf(t0.keys@, p, key);
        lemma_count_used_update(t0.keys@, p, key);
        assert(table.keys@[p] == key && table.vals@[p] == val);
        assert forall|g: Seq<u8>| #[trigger] completes(g, f0, rank as int, 0) implies maps_in(
            table.keys@,
            table.vals@,
            fkey(g, 2) as u64,
            non_flush_code(g) as u32,
        ) by {
            assert forall|r: int| 2 <= r <= rank implies g[r] == 0 by {
                lemma_sum_upto_entry(g, 2, rank as int, r);
            }
            assert(g =~= f0);
        }
        assert forall|q: int|
            0 <= q < 131072 && #[trigger] table.keys@[q] != EMPTY_KEY && t0.keys@[q]
                == EMPTY_KEY implies completion_key(table.keys@[q], f0, rank as int, 0, 5) by {
            assert(q == p);
            assert(completes(f0, f0, rank as int, 0) && f0[rank as int] < 5);
        }
    }
}

/// Enumerates every count table that agrees with `freq` above `rank`, has entries at most 4
/// at ranks 2 up to `rank` with `remaining` cards among them, and stores its key with its score.
///
/// It is the recursive step of `build_non_flush_table`, and asks what that build gives it:
/// counts that complete to seven-card tables (nothing below Two, none above 4, the counts
/// above `rank` and `remaining` making seven), room in the table for every completion, and no
/// completion already stored. These keep every key stored once, so the table stays well formed
/// and a lookup finds each seven-card table.
pub fn enumerate_freq(rank: usize, remaining: u8, freq: &mut [u8; 15], table: &mut NonFlushTable)
    requires
        1 <= rank <= 14,
        forall|r: int| 0 <= r <= rank ==> old(freq)@[r] == 0,
        forall|r: int| 0 <= r < 15 ==> old(freq)@[r] <= 4,
        fsum(old(freq)@, rank + 1) + remaining == 7,
        old(table).well_formed(),
        count_used(old(table).keys@) + npat(rank as int, remaining as int) < 131072,
        avoids(old(table).keys@, old(freq)@, rank as int, remaining as int),
    ensures
        final(freq)@ == old(freq)@,
        final(table).well_formed(),
        count_used(final(table).keys@) == count_used(old(table).keys@) + npat(
            rank as int,
            remaining as int,
        ),
        keeps(old(table).keys@, old(table).vals@, final(table).keys@, final(table).vals@),
        only_completions(
            old(table).keys@,
            final(table).keys@,
            old(freq)@,
            rank as int,
            remaining as int,
            5,
        ),
        forall|g: Seq<u8>|
            #[trigger] completes(g, old(freq)@, rank as int, remaining as int) ==> maps_in(
                final(table).keys@,
                final(table).vals@,
                fkey(g, 2) as u64,
                non_flush_code(g) as u32,
            ),
    decreases rank,
{
    let ghost f0 = freq@;
    let ghost t0 = *table;
    if remaining == 0 {
        store_pattern(rank, freq, table);
        return;
    }
    if rank < 2 {
        proof {
            assert forall|g: Seq<u8>| #[trigger] completes(g, f0, rank as int, remaining as int) implies false by {
                assert(sum_upto(g, 2, 1) == 0);
            }
        }
        return;
    }
    let max_f: u8 = if remaining < 4 {
        remaining
    } else {
        4
    };
    proof {
        super::model::lemma_fsum_mono(f0, rank as int + 1, 15);
        assert(f0.len() == 15);
    }
    let mut fv: u8 = 0;
    while fv <= max_f
        invariant
            2 <= rank <= 14,
            1 <= remaining <= 7,
            f0.len() == 15,
            max_f == (if remaining < 4 { remaining } else { 4 }),
            fv <= max_f + 1,
            forall|r: int| 0 <= r < 15 && r != rank ==> freq@[r] == f0[r],
            forall|r: int| 0 <= r <= rank ==> f0[r] == 0,
            forall|r: int| 0 <= r < 15 ==> f0[r] <= 4,
            fsum(f0, rank + 1) + remaining == 7,
            count_used(t0.keys@) + npat(rank as int, remaining as int) < 131072,
            avoids(t0.keys@, f0, rank as int, remaining as int),
            table.well_formed(),
            count_used(table.keys@) == count_used(t0.keys@) + npat_sum(
                rank as int,
                remaining as int,
                fv as int,
            ),
            keeps(t0.keys@, t0.vals@, table.keys@, table.vals@),
            only_completions(t0.keys@, table.keys@, f0, rank as int, remaining as int, fv as int),
            stores_below(table.keys@, table.vals@, f0, rank as int, remaining as int, fv as int),
        decreases max_f + 1 - fv,
    {
        freq[rank] = fv;
        let ghost t1 = *table;
        proof {
            assert(freq@ =~= f0.update(rank as int, fv));
            lemma_fsum_agree(freq@, f0, rank as int + 1);
            lemma_npat_sum_mono(rank as int, remaining as int, fv as int + 1, max_f as int + 1);
            lemma_step_avoids(
                f0,
                rank as int,
                remaining as int,
                fv,
                t0.keys@,
                t0.vals@,
                t1.keys@,
                t1.vals@,
            );
        }
        enumerate_freq(rank - 1, remaining - fv, freq, table);
        proof {
            lemma_step_done(
                f0,
                rank as int,
                remaining as int,
                fv,
                t0.keys@,
                t0.vals@,
                t1.keys@,
                t1.vals@,
                table.keys@,
                table.vals@,
            );
        }
        fv = fv + 1;
    }
    freq[rank] = 0;
    proof {
        assert(freq@ =~= f0);
        assert forall|g: Seq<u8>| #[trigger] completes(g, f0, rank as int, remaining as int) implies maps_in(
            table.keys@,
            table.vals@,
            fkey(g, 2) as u64,
            non_flush_code(g) as u32,
        ) by {
            lemma_sum_upto_entry(g, 2, rank as int, rank as int);
        }
        assert forall|p: int|
            0 <= p < 131072 && #[trigger] table.keys@[p] != EMPTY_KEY && t0.keys@[p]
                == EMPTY_KEY implies completion_key(
            table.keys@[p],
            f0,
            rank as int,
            remaining as int,
            5,
        ) by {
            let g2 = choose|g2: Seq<u8>|
                #[trigger] completes(g2, f0, rank as int, remaining as int) && g2[rank as int]
                    < fv && fkey(g2, 2) == table.keys@[p];
            assert(g2[rank as int] < 5);
        }
    }
}

/// A count table of seven cards with no rank more than four times: entries 0 and 1 are zero,
/// entries 2 to 14 are at most 4 and sum to 7.
pub open spec fn seven_card_table(g: Seq<u8>) -> bool {
    &&& g.len() == 15
    &&& g[0] == 0
    &&& g[1] == 0
    &&& forall|r: int| 2 <= r < 15 ==> g[r] <= 4
    &&& fsum(g, 2) == 7
}

/// Builds the map from the key of every seven-card count table to its score: exactly those
/// 49205 keys are stored, one slot each, each with its table's score.
pub fn build_non_flush_table() -> (t: NonFlushTable)
    ensures
        t.well_formed(),
        forall|g: Seq<u8>|
            #[trigger] seven_card_table(g) ==> t.maps(fkey(g, 2) as u64, non_flush_code(g) as u32),
        count_used(t.keys@) == 49205,
        forall|p: int|
            0 <= p < 131072 && #[trigger] t.keys@[p] != EMPTY_KEY ==> exists|g: Seq<u8>|
                seven_card_table(g) && t.keys@[p] == fkey(g, 2) as u64 && t.vals@[p]
                    == non_flush_code(g) as u32,
{
    let mut table = NonFlushTable::new();
    let mut freq = [0u8; 15];
    let ghost z = freq@;
    proof {
        lemma_empty_keys(table.keys@);
        lemma_npat_total();
        super::model::lemma_fsum_zero(freq@, 15);
        assert forall|g: Seq<u8>, p: int|
            #![trigger completes(g, freq@, 14, 7), table.keys@[p]]
            completes(g, freq@, 14, 7) && 0 <= p < 131072 implies table.keys@[p] != fkey(g, 2) by {
            lemma_fkey_not_empty(g);
        }
    }
    enumerate_freq(14, 7, &mut freq, &mut table);
    proof {
        assert forall|g: Seq<u8>| #[trigger] seven_card_table(g) implies table.maps(
            fkey(g, 2) as u64,
            non_flush_code(g) as u32,
        ) by {
            lemma_fsum_split(g, 2, 15);
            assert(completes(g, z, 14, 7));
        }
        assert forall|p: int|
            0 <= p < 131072 && #[trigger] table.keys@[p] != EMPTY_KEY implies exists|g: Seq<u8>|
                seven_card_table(g) && table.keys@[p] == fkey(g, 2) as u64 && table.vals@[p]
                    == non_flush_code(g) as u32 by {
            assert(completion_key(table.keys@[p], z, 14, 7, 5));
            let g = choose|g: Seq<u8>| #[trigger] completes(g, z, 14, 7) && g[14] < 5 && fkey(g, 2) == table.keys@[p];
            assert(seven_card_table(g)) by {
                lemma_fsum_split(g, 2, 15);
            }
            assert(table.maps(fkey(g, 2) as u64, non_flush_code(g) as u32));
            let q = choose|q: int| 0 <= q < 131072 && table.keys@[q] == fkey(g, 2) as u64 && table.vals@[q]
                == non_flush_code(g) as u32;
            assert(q == p);
        }
    }
    table
}

/// The two lookup tables: flush codes by 13-bit rank mask, and non-flush codes by count-table
/// key.
pub struct LutData {
    pub flush: Vec<u32>,
    pub non_flush: NonFlushTable,
}

impl LutData {
    /// The flush table holds every mask's flush entry, and the count-table map is well formed
    /// and holds every seven-card count table with its score.
    pub open spec fn valid(&self) -> bool {
        &&& self.flush@.len() == 8192
        &&& forall|m: int| 0 <= m < 8192 ==> #[trigger] self.flush@[m] == flush_entry(m as u16)
        &&& self.non_flush.well_formed()
        &&& forall|g: Seq<u8>|
            #[trigger] seven_card_table(g) ==> self.non_flush.maps(
                fkey(g, 2) as u64,
                non_flush_code(g) as u32,
            )
    }

    /// Builds both tables.
    pub fn build() -> (lut: LutData)
        ensures
            lut.valid(),
    {
        LutData { flush: build_flush_table(), non_flush: build_non_flush_table() }
    }
}

/// The 13-bit mask of the ranks of the cards of suit position `s`: bit `value - 2` for each.
pub open spec fn suit_mask(cards: Seq<Card>, s: int) -> u16
    decreases cards.len(),
{
    if cards.len() == 0 {
        0
    } else if cards.last().suit.index() == s {
        suit_mask(cards.drop_last(), s) | (1u16 << ((cards.last().rank.value() - 2) as u16))
    } else {
        suit_mask(cards.drop_last(), s)
    }
}

/// The code the lookup tables give seven cards: the flush entry of the flush suit's rank mask
/// when some suit holds five or more cards, and otherwise the score of the count table.
pub open spec fn lut_spec(seven: Seq<Card>) -> int {
    let fs = flush_suit(suit_counts(seven));
    if fs < 4 {
        flush_entry(suit_mask(seven, fs))
    } else {
        non_flush_code(freq_of(rank_values(seven)))
    }
}

/// Scores seven cards directly, without the lookup tables: the evaluator used below the
/// threshold, the same reading as the direct seven-card evaluator.
pub fn eval7_inline(seven: &[Card; 7]) -> (r: u32)
    ensures
        r == eval7_spec(seven@),
        seven@.no_duplicates() ==> r == super::score::best21(seven@, super::model::eval5_fn()),
{
    super::eval7::eval7(seven)
}

/// Scores seven cards with the lookup tables; for seven distinct cards this is the best code
/// of their twenty-one five-card subsets.
pub fn eval_lut(seven: &[Card; 7], lut: &LutData) -> (r: u32)
    requires
        lut.valid(),
        flush_suit(suit_counts(seven@)) == 4 ==> forall|v: int|
            2 <= v < 15 ==> #[trigger] super::model::count_of(rank_values(seven@), v) <= 4,
    ensures
        r == lut_spec(seven@),
        seven@.no_duplicates() ==> r == super::score::best21(seven@, super::model::eval5_fn()),
{
    proof {
        if seven@.no_duplicates() {
            super::agree::lemma_lut_agrees(seven@);
            super::agree_seven::lemma_direct_agrees(seven@);
        }
    }
    let (freq, suit_cnt) = tally7(seven);
    let fs_idx = find_flush_suit(&suit_cnt);
    if fs_idx < 4 {
        let fs = Suit::at(fs_idx);
        let mut flush_mask = 0u16;
        let mut k: usize = 0;
        while k < 7
            invariant
                k <= 7,
                fs.index() == fs_idx,
                flush_mask == suit_mask(seven@.take(k as int), fs_idx as int),
                flush_mask < 8192,
            decreases 7 - k,
        {
            let c = seven[k];
            proof {
                assert(seven@.take(k + 1).drop_last() == seven@.take(k as int));
                assert(seven@.take(k + 1).last() == c);
            }
            if c.suit == fs {
                let b = (c.rank.idx() - 2) as u16;
                let m = flush_mask;
                assert(m | (1u16 << b) < 8192) by (bit_vector)
                    requires
                        m < 8192,
                        b <= 12,
                ;
                flush_mask = flush_mask | (1u16 << b);
            }
            k = k + 1;
        }
        assert(seven@.take(7) == seven@);
        return lut.flush[flush_mask as usize];
    }
    let key = freq_key(&freq);
    proof {
        lemma_fkey_not_empty(freq@);
        assert(seven_card_table(freq@)) by {
            assert forall|r: int| 2 <= r < 15 implies freq@[r] <= 4 by {
                assert(super::model::count_of(rank_values(seven@), r) <= 4);
            }
        }
        assert(lut.non_flush.maps(key, non_flush_code(freq@) as u32));
        let p = choose|p: int|
            0 <= p < 131072 && lut.non_flush.keys@[p] == key && lut.non_flush.vals@[p]
                == non_flush_code(freq@) as u32;
        lemma_lookup_wf(lut.non_flush.keys@, p);
        lemma_fkey_not_empty(freq@);
        super::model::lemma_groups_top_len(freq@, 2);
        lemma_non_flush_code_bound(freq@);
    }
    lut.non_flush.get(key)
}

/// Non-flush codes fit in 32 bits.
pub proof fn lemma_non_flush_code_bound(f: Seq<u8>)
    requires
        f.len() == 15,
    ensures
        0 <= non_flush_code(f) < 0x800000,
{
    super::model::lemma_ordered_groups(f);
    super::model::lemma_straight_top_bound(f, 14);
    let g = ordered_groups(f);
    super::model::lemma_high_except(f, gat(g, 0).0 as int, 0, 14);
    super::model::lemma_high_except(f, gat(g, 0).0 as int, gat(g, 1).0 as int, 14);
}

/// A key held somewhere has a first slot holding it at or after any home slot; the search may
/// start at distance `d` once no nearer slot holds it.
pub proof fn lemma_first_with_exists(keys: Seq<u64>, home: int, key: u64, e: int, d: int)
    requires
        0 <= home < 131072,
        0 <= e < 131072,
        keys[e] == key,
        0 <= d <= slot_dist(home, e),
        forall|q: int| 0 <= q < 131072 && slot_dist(home, q) < d ==> keys[q] != key,
    ensures
        exists|p: int| is_first_with(keys, home, key, p),
    decreases slot_dist(home, e) - d,
{
    let q = (home + d) % 131072;
    assert(slot_dist(home, q) == d);
    if keys[q] == key {
        assert(is_first_with(keys, home, key, q));
    } else {
        assert(d < slot_dist(home, e)) by {
            if d == slot_dist(home, e) {
                assert(q == e);
            }
        }
        assert forall|q2: int| 0 <= q2 < 131072 && slot_dist(home, q2) < d + 1 implies keys[q2] != key by {
            if slot_dist(home, q2) == d {
                assert(q2 == q);
            }
        }
        lemma_first_with_exists(keys, home, key, e, d + 1);
    }
}

/// The home slot of a key lies in the table.
pub proof fn lemma_home_bound(key: u64)
    ensures
        0 <= ht_slot_spec(key) < 131072,
{
    let h = vstd::wrapping::u64_specs::wrapping_mul(key, 0x9e3779b97f4a7c15u64);
    assert((h ^ (h >> 32u64)) & 131071u64 <= 131071u64) by (bit_vector);
}

/// The keys after storing `key` in the first empty slot at or after its home slot, as
/// `NonFlushTable::insert` does.
pub open spec fn keys_after_insert(keys: Seq<u64>, key: u64) -> Seq<u64> {
    keys.update(first_with(keys, ht_slot_spec(key), EMPTY_KEY), key)
}

/// The values after storing `val` for `key`, as `NonFlushTable::insert` does.
pub open spec fn vals_after_insert(keys: Seq<u64>, vals: Seq<u32>, key: u64, val: u32) -> Seq<u32> {
    vals.update(first_with(keys, ht_slot_spec(key), EMPTY_KEY), val)
}

/// A key inserted twice into a table that did not hold it is found, by the lookup of
/// `NonFlushTable::get`, with the value of its first insert.
pub proof fn lemma_get_first_insert(keys: Seq<u64>, vals: Seq<u32>, key: u64, v1: u32, v2: u32, e1: int, e2: int)
    requires
        keys.len() == 131072,
        vals.len() == 131072,
        key != EMPTY_KEY,
        forall|p: int| 0 <= p < 131072 ==> keys[p] != key,
        0 <= e1 < 131072,
        0 <= e2 < 131072,
        e1 != e2,
        keys[e1] == EMPTY_KEY,
        keys[e2] == EMPTY_KEY,
    ensures
        ({
            let k1 = keys_after_insert(keys, key);
            let w1 = vals_after_insert(keys, vals, key, v1);
            let k2 = keys_after_insert(k1, key);
            let w2 = vals_after_insert(k1, w1, key, v2);
            w2[first_with(k2, ht_slot_spec(key), key)] == v1
        }),
{
    let h = ht_slot_spec(key);
    lemma_home_bound(key);
    lemma_first_with_exists(keys, h, EMPTY_KEY, e1, 0);
    let p1 = choose|p: int| is_first_with(keys, h, EMPTY_KEY, p);
    lemma_first_with_unique(keys, h, EMPTY_KEY, p1);
    let k1 = keys.update(p1, key);
    let w1 = vals.update(p1, v1);
    let e = if e1 != p1 {
        e1
    } else {
        e2
    };
    assert(k1[e] == EMPTY_KEY);
    lemma_first_with_exists(k1, h, EMPTY_KEY, e, 0);
    let p2 = choose|p: int| is_first_with(k1, h, EMPTY_KEY, p);
    lemma_first_with_unique(k1, h, EMPTY_KEY, p2);
    assert(p2 != p1);
    assert(keys[p2] == EMPTY_KEY);
    assert(slot_dist(h, p1) < slot_dist(h, p2)) by {
        if slot_dist(h, p2) < slot_dist(h, p1) {
            assert(keys[p2] != EMPTY_KEY);
        }
        if slot_dist(h, p2) == slot_dist(h, p1) {
            assert(p2 == p1);
        }
    }
    let k2 = k1.update(p2, key);
    let w2 = w1.update(p2, v2);
    assert(is_first_with(k2, h, key, p1));
    lemma_first_with_unique(k2, h, key, p1);
}

/// The keys of a new table: every slot empty.
pub open spec fn empty_keys() -> Seq<u64> {
    Seq::new(131072, |p: int| EMPTY_KEY)
}

/// The values of a new table: every value 0.
pub open spec fn empty_vals() -> Seq<u32> {
    Seq::new(131072, |p: int| 0u32)
}

/// The keys of a table made by `NonFlushTable::new` and then `insert` of each (key, value) of
/// `h` in turn.
pub open spec fn keys_after(h: Seq<(u64, u32)>) -> Seq<u64>
    decreases h.len(),
{
    if h.len() == 0 {
        empty_keys()
    } else {
        keys_after_insert(keys_after(h.drop_last()), h.last().0)
    }
}

/// The values of the same table.
pub open spec fn vals_after(h: Seq<(u64, u32)>) -> Seq<u32>
    decreases h.len(),
{
    if h.len() == 0 {
        empty_vals()
    } else {
        vals_after_insert(keys_after(h.drop_last()), vals_after(h.drop_last()), h.last().0, h.last().1)
    }
}

/// Whether some insert of `h` is of `key`.
pub open spec fn inserted(h: Seq<(u64, u32)>, key: u64) -> bool {
    exists|i: int| 0 <= i < h.len() && (#[trigger] h[i]).0 == key
}

/// The value of the first insert of `key` in `h`.
pub open spec fn first_val(h: Seq<(u64, u32)>, key: u64) -> u32
    decreases h.len(),
{
    if h.len() == 0 {
        0
    } else if inserted(h.drop_last(), key) {
        first_val(h.drop_last(), key)
    } else {
        h.last().1
    }
}

/// Every slot in use of `k` holds a key inserted by `h`.
#[verifier::opaque]
pub open spec fn only_inserted(h: Seq<(u64, u32)>, k: Seq<u64>) -> bool {
    forall|p: int| 0 <= p < 131072 && #[trigger] k[p] != EMPTY_KEY ==> inserted(h, k[p])
}

/// Each key inserted by `h` is first found in `k`, from its home slot past slots in use only,
/// with the value of its first insert in `v`.
#[verifier::opaque]
pub open spec fn found_first(h: Seq<(u64, u32)>, k: Seq<u64>, v: Seq<u32>) -> bool {
    forall|key: u64|
        #[trigger] inserted(h, key) ==> exists|p: int|
            {
                &&& is_first_with(k, ht_slot_spec(key), key, p)
                &&& v[p] == first_val(h, key)
                &&& forall|q: int|
                    0 <= q < 131072 && slot_dist(ht_slot_spec(key), q) < slot_dist(ht_slot_spec(key), p)
                        ==> k[q] != EMPTY_KEY
            }
}

/// What the table made by the inserts of `h` holds: as many slots in use as inserts, only
/// inserted keys, and each inserted key first found with the value of its first insert.
pub open spec fn history_holds(h: Seq<(u64, u32)>) -> bool {
    &&& keys_after(h).len() == 131072
    &&& vals_after(h).len() == 131072
    &&& count_used(keys_after(h)) == h.len()
    &&& only_inserted(h, keys_after(h))
    &&& found_first(h, keys_after(h), vals_after(h))
}

/// An insert keeps to the table only inserted keys.
proof fn lemma_step_only(h: Seq<(u64, u32)>, x: (u64, u32), k: Seq<u64>, e: int)
    requires
        k.len() == 131072,
        0 <= e < 131072,
        only_inserted(h, k),
    ensures
        only_inserted(h.push(x), k.update(e, x.0)),
{
    reveal(only_inserted);
    let h2 = h.push(x);
    let k2 = k.update(e, x.0);
    assert forall|p: int| 0 <= p < 131072 && #[trigger] k2[p] != EMPTY_KEY implies inserted(h2, k2[p]) by {
        if p != e {
            assert(inserted(h, k[p]));
            let i = choose|i: int| 0 <= i < h.len() && (#[trigger] h[i]).0 == k[p];
            assert(h2[i] == h[i]);
        } else {
            assert(h2[h.len() as int] == x);
        }
    }
}

/// An insert into the first empty slot from its home slot keeps each inserted key first found
/// with the value of its first insert.
#[verifier::spinoff_prover]
proof fn lemma_step_found(h: Seq<(u64, u32)>, x: (u64, u32), k: Seq<u64>, v: Seq<u32>, e: int)
    requires
        k.len() == 131072,
        v.len() == 131072,
        x.0 != EMPTY_KEY,
        forall|i: int| 0 <= i < h.len() ==> (#[trigger] h[i]).0 != EMPTY_KEY,
        is_first_with(k, ht_slot_spec(x.0), EMPTY_KEY, e),
        only_inserted(h, k),
        found_first(h, k, v),
    ensures
        found_first(h.push(x), k.update(e, x.0), v.update(e, x.1)),
{
    let h2 = h.push(x);
    assert(h2.drop_last() =~= h);
    let k2 = k.update(e, x.0);
    let v2 = v.update(e, x.1);
    let key1 = x.0;
    reveal(found_first);
    assert forall|key: u64| #[trigger] inserted(h2, key) implies exists|p: int|
        {
            &&& is_first_with(k2, ht_slot_spec(key), key, p)
            &&& v2[p] == first_val(h2, key)
            &&& forall|q: int|
                0 <= q < 131072 && slot_dist(ht_slot_spec(key), q) < slot_dist(ht_slot_spec(key), p)
                    ==> k2[q] != EMPTY_KEY
        } by {
        if inserted(h, key) {
            let p = choose|p: int|
                {
                    &&& is_first_with(k, ht_slot_spec(key), key, p)
                    &&& v[p] == first_val(h, key)
                    &&& forall|q: int|
                        0 <= q < 131072 && slot_dist(ht_slot_spec(key), q) < slot_dist(ht_slot_spec(key), p)
                            ==> k[q] != EMPTY_KEY
                };
            let i = choose|i: int| 0 <= i < h.len() && (#[trigger] h[i]).0 == key;
            assert(key != EMPTY_KEY);
            lemma_history_old_key(k, key1, e, key, p);
            assert(first_val(h2, key) == first_val(h, key));
            assert(v2[p] == v[p]);
            assert(is_first_with(k2, ht_slot_spec(key), key, p));
            assert(forall|q: int|
                0 <= q < 131072 && slot_dist(ht_slot_spec(key), q) < slot_dist(ht_slot_spec(key), p)
                    ==> k2[q] != EMPTY_KEY);
        } else {
            let i = choose|i: int| 0 <= i < h2.len() && (#[trigger] h2[i]).0 == key;
            if i < h.len() {
                assert(h[i] == h2[i]);
            }
            assert(key == key1);
            reveal(only_inserted);
            lemma_history_new_key(h, k, key1, e);
            assert(first_val(h2, key) == x.1);
            assert(v2[e] == x.1);
            assert(is_first_with(k2, ht_slot_spec(key), key, e));
        }
    }
}

/// One more insert keeps what the table holds.
proof fn lemma_history_step(h: Seq<(u64, u32)>, x: (u64, u32))
    requires
        history_holds(h),
        forall|i: int| 0 <= i < h.len() ==> (#[trigger] h[i]).0 != EMPTY_KEY,
        h.len() < 131072,
        x.0 != EMPTY_KEY,
    ensures
        history_holds(h.push(x)),
{
    let h2 = h.push(x);
    assert(h2.drop_last() =~= h);
    let k = keys_after(h);
    let v = vals_after(h);
    let key1 = x.0;
    let home1 = ht_slot_spec(key1);
    lemma_home_bound(key1);
    lemma_count_used_empty(k);
    let e0 = choose|e: int| 0 <= e < k.len() && k[e] == EMPTY_KEY;
    lemma_first_with_exists(k, home1, EMPTY_KEY, e0, 0);
    let e = choose|p: int| is_first_with(k, home1, EMPTY_KEY, p);
    lemma_first_with_unique(k, home1, EMPTY_KEY, e);
    assert(keys_after(h2) == k.update(e, key1));
    assert(vals_after(h2) == v.update(e, x.1));
    lemma_count_used_update(k, e, key1);
    lemma_step_only(h, x, k, e);
    lemma_step_found(h, x, k, v, e);
}

/// After one more insert, in the slot `e` where it lands, a key inserted before is still first
/// found at its slot `p`, past slots in use only.
proof fn lemma_history_old_key(k: Seq<u64>, key1: u64, e: int, key: u64, p: int)
    requires
        k.len() == 131072,
        key1 != EMPTY_KEY,
        is_first_with(k, ht_slot_spec(key1), EMPTY_KEY, e),
        is_first_with(k, ht_slot_spec(key), key, p),
        key != EMPTY_KEY,
        forall|q: int|
            0 <= q < 131072 && slot_dist(ht_slot_spec(key), q) < slot_dist(ht_slot_spec(key), p)
                ==> k[q] != EMPTY_KEY,
    ensures
        p != e,
        is_first_with(k.update(e, key1), ht_slot_spec(key), key, p),
        forall|q: int|
            0 <= q < 131072 && slot_dist(ht_slot_spec(key), q) < slot_dist(ht_slot_spec(key), p)
                ==> k.update(e, key1)[q] != EMPTY_KEY,
{
    let home = ht_slot_spec(key);
    lemma_home_bound(key);
    assert(p != e);
    if key == key1 {
        assert(slot_dist(home, p) < slot_dist(home, e)) by {
            if slot_dist(home, e) < slot_dist(home, p) {
                assert(k[e] != EMPTY_KEY);
            }
            if slot_dist(home, e) == slot_dist(home, p) {
                assert(e == p);
            }
        }
    }
}

/// After one more insert of a key not inserted before, the key is first found where it
/// landed, past slots in use only.
proof fn lemma_history_new_key(h: Seq<(u64, u32)>, k: Seq<u64>, key1: u64, e: int)
    requires
        k.len() == 131072,
        key1 != EMPTY_KEY,
        !inserted(h, key1),
        is_first_with(k, ht_slot_spec(key1), EMPTY_KEY, e),
        forall|p: int| 0 <= p < 131072 && #[trigger] k[p] != EMPTY_KEY ==> inserted(h, k[p]),
    ensures
        is_first_with(k.update(e, key1), ht_slot_spec(key1), key1, e),
        forall|q: int|
            0 <= q < 131072 && slot_dist(ht_slot_spec(key1), q) < slot_dist(ht_slot_spec(key1), e)
                ==> k.update(e, key1)[q] != EMPTY_KEY,
{
    let home = ht_slot_spec(key1);
    let k2 = k.update(e, key1);
    assert forall|q: int| 0 <= q < 131072 && slot_dist(home, q) < slot_dist(home, e) implies k2[q]
        != key1 by {
        assert(k[q] != EMPTY_KEY);
        assert(inserted(h, k[q]));
    }
}

/// The table made by `NonFlushTable::new` and the inserts of `h`, fewer than its slots, with no
/// empty-marker key, holds exactly the inserted keys: a lookup of an inserted key (the only keys
/// `NonFlushTable::get` accepts) returns the value of its first insert.
pub proof fn lemma_insert_history(h: Seq<(u64, u32)>, key: u64)
    requires
        key != EMPTY_KEY,
        h.len() < 131072,
        forall|i: int| 0 <= i < h.len() ==> (#[trigger] h[i]).0 != EMPTY_KEY,
    ensures
        inserted(h, key) ==> exists|p: int| 0 <= p < 131072 && keys_after(h)[p] == key,
        inserted(h, key) ==> vals_after(h)[first_with(keys_after(h), ht_slot_spec(key), key)]
            == first_val(h, key),
        !inserted(h, key) ==> forall|p: int| 0 <= p < 131072 ==> keys_after(h)[p] != key,
        count_used(keys_after(h)) == h.len(),
    decreases h.len(),
{
    lemma_history_holds(h);
    reveal(only_inserted);
    reveal(found_first);
    let k = keys_after(h);
    if inserted(h, key) {
        lemma_home_bound(key);
        let p = choose|p: int|
            {
                &&& is_first_with(k, ht_slot_spec(key), key, p)
                &&& vals_after(h)[p] == first_val(h, key)
                &&& forall|q: int|
                    0 <= q < 131072 && slot_dist(ht_slot_spec(key), q) < slot_dist(ht_slot_spec(key), p)
                        ==> k[q] != EMPTY_KEY
            };
        lemma_first_with_unique(k, ht_slot_spec(key), key, p);
    } else {
        assert forall|p: int| 0 <= p < 131072 implies k[p] != key by {
            if k[p] == key {
                assert(k[p] != EMPTY_KEY);
            }
        }
    }
}

/// Every history of inserts with room and no empty-marker key leaves a table that holds it.
proof fn lemma_history_holds(h: Seq<(u64, u32)>)
    requires
        h.len() < 131072,
        forall|i: int| 0 <= i < h.len() ==> (#[trigger] h[i]).0 != EMPTY_KEY,
    ensures
        history_holds(h),
    decreases h.len(),
{
    if h.len() == 0 {
        lemma_empty_keys(empty_keys());
        assert(keys_after(h) == empty_keys());
        assert(vals_after(h) == empty_vals());
        reveal(only_inserted);
        reveal(found_first);
    } else {
        let h1 = h.drop_last();
        assert forall|i: int| 0 <= i < h1.len() implies (#[trigger] h1[i]).0 != EMPTY_KEY by {
            assert(h1[i] == h[i]);
        }
        lemma_history_holds(h1);
        assert(h1.push(h.last()) =~= h);
        lemma_history_step(h1, h.last());
    }
}

/// Stepping to the next slot wraps around the table.
pub proof fn lemma_wrap_next(idx: usize)
    requires
        idx < 131072,
    ensures
        ((idx + 1) as usize) & 131071usize == (idx + 1) % 131072,
{
    assert(((idx + 1) as usize) & 131071usize == (idx + 1) % 131072) by (bit_vector)
        requires
            idx < 131072,
    ;
}

/// One probe step moves one slot further from the home slot and one slot closer to the target
/// slot, and only the slot left behind lies between.
pub proof fn lemma_probe_step(home: int, idx: int, e: int)
    requires
        0 <= home < 131072,
        0 <= idx < 131072,
        0 <= e < 131072,
        idx != e,
        slot_dist(home, idx) <= slot_dist(home, e),
    ensures
        slot_dist(home, (idx + 1) % 131072) == slot_dist(home, idx) + 1,
        slot_dist((idx + 1) % 131072, e) == slot_dist(idx, e) - 1,
        slot_dist(home, (idx + 1) % 131072) <= slot_dist(home, e),
        forall|q: int|
            0 <= q < 131072 && slot_dist(home, q) == slot_dist(home, idx) ==> q == idx,
{
    assert forall|q: int|
        0 <= q < 131072 && slot_dist(home, q) == slot_dist(home, idx) implies q == idx by {
        if q >= home && idx >= home {
        } else if q < home && idx < home {
        } else if q >= home {
            assert(slot_dist(home, q) == q - home);
            assert(slot_dist(home, idx) == idx - home + 131072);
        } else {
            assert(slot_dist(home, idx) == idx - home);
            assert(slot_dist(home, q) == q - home + 131072);
        }
    }
    if idx == 131071 {
        assert((idx + 1) % 131072 == 0);
    } else {
        assert((idx + 1) % 131072 == idx + 1);
    }
}

/// The first slot holding a key after a home slot is the one `first_with` names.
pub proof fn lemma_first_with_unique(keys: Seq<u64>, home: int, key: u64, p: int)
    requires
        0 <= home < 131072,
        is_first_with(keys, home, key, p),
    ensures
        first_with(keys, home, key) == p,
{
    let c = first_with(keys, home, key);
    assert(is_first_with(keys, home, key, c));
    if c != p {
        if slot_dist(home, c) < slot_dist(home, p) {
            assert(keys[c] != key);
        } else if slot_dist(home, p) < slot_dist(home, c) {
            assert(keys[p] != key);
        } else {
            assert(c == p);
        }
    }
}

/// Whether `x` occurs in `s`.
fn contains_u8(s: &[u8], x: u8) -> (b: bool)
    ensures
        b == s@.contains(x),
{
    let mut i: usize = 0;
    while i < s.len()
        invariant
            i <= s@.len(),
            forall|j: int| 0 <= j < i ==> s@[j] != x,
        decreases s@.len() - i,
    {
        if s[i] == x {
            assert(s@[i as int] == x);
            return true;
        }
        i = i + 1;
    }
    false
}

/// Scores the ranks of a flush, given in descending order (five to seven of them).
pub fn eval_flush_ranks(ranks: &[u8]) -> (r: u32)
    requires
        5 <= ranks@.len(),
        forall|i: int| 0 <= i < ranks@.len() ==> #[trigger] ranks@[i] <= 14,
    ensures
        r == flush_code(ranks@),
{
    let nf = ranks.len();
    let mut sf_top = 0u8;
    let mut i: usize = 0;
    while i <= nf - 5
        invariant_except_break
            sf_top == 0,
            first_run(ranks@, 0) == first_run(ranks@, i as int),
        invariant
            nf == ranks@.len(),
            5 <= nf,
            i <= nf - 4,
            forall|j: int| 0 <= j < nf ==> #[trigger] ranks@[j] <= 14,
        ensures
            sf_top == first_run(ranks@, 0),
            sf_top <= 14,
        decreases nf - i,
    {
        if ranks[i] >= 5 && ranks[i] == ranks[i + 1] + 1 && ranks[i + 1] == ranks[i + 2] + 1
            && ranks[i + 2] == ranks[i + 3] + 1 && ranks[i + 3] == ranks[i + 4] + 1 {
            assert(run_from(ranks@, i as int));
            sf_top = ranks[i];
            break;
        }
        i = i + 1;
    }
    let is_wheel = sf_top == 0 && contains_u8(ranks, 14) && contains_u8(ranks, 5) && contains_u8(
        ranks,
        4,
    ) && contains_u8(ranks, 3) && contains_u8(ranks, 2);

    if sf_top == 14 {
        return pack(ROYAL_FLUSH, 0, 0, 0, 0, 0);
    }
    if sf_top > 0 {
        return pack(STR_FLUSH, sf_top, 0, 0, 0, 0);
    }
    if is_wheel {
        return pack(STR_FLUSH, 5, 0, 0, 0, 0);
    }
    pack(FLUSH, ranks[0], ranks[1], ranks[2], ranks[3], ranks[4])
}

/// Fewest deals from which the table evaluators read the lookup tables; below it the tables
/// would not pay for building them.
pub const LUT_THRESHOLD: u32 = 200_000;

/// Whether a simulation of this many deals reads the lookup tables.
pub fn needs_tables(iterations: u32) -> (b: bool)
    ensures
        b == (iterations >= LUT_THRESHOLD),
{
    iterations >= LUT_THRESHOLD
}

/// The scorer of the table evaluators for a number of deals: the lookup tables from
/// `LUT_THRESHOLD` deals on, the direct seven-card evaluator below.
pub open spec fn lut_scorer<'a>(iterations: u32, lut: Option<&'a LutData>) -> Scorer<'a> {
    if iterations >= LUT_THRESHOLD {
        Scorer::Table(lut.unwrap())
    } else {
        Scorer::Direct
    }
}

/// When the deals read the tables: the tables are supplied and valid, and no card of the
/// condition is given twice.
pub open spec fn tables_ready(c: &Condition, lut: Option<&LutData>) -> bool {
    c.iterations >= LUT_THRESHOLD ==> lut is Some && lut.unwrap().valid() && distinct_given(
        condition_slots(c),
    )
}

/// Picks the scorer for a number of deals.
pub fn scorer_for<'a>(iterations: u32, lut: Option<&'a LutData>) -> (sc: Scorer<'a>)
    requires
        iterations >= LUT_THRESHOLD ==> lut is Some,
    ensures
        sc == lut_scorer(iterations, lut),
{
    if iterations >= LUT_THRESHOLD {
        match lut {
            Some(t) => Scorer::Table(t),
            None => Scorer::Direct,
        }
    } else {
        Scorer::Direct
    }
}

/// Evaluator that scores seven cards with the lookup tables (from `LUT_THRESHOLD` deals on,
/// else directly) and draws only the cards it deals, with Lemire's reduction.
pub struct LutEvaluator;

impl LutEvaluator {
    /// Plays the condition's deals from `seed` (partial shuffle with Lemire's draw, table or
    /// direct seven-card code) and counts, per player, the deals won and with how many
    /// others, and the hand categories.
    pub fn run(&self, condition: &Condition, seed: u64, lut: Option<&LutData>) -> (t: SimTally)
        requires
            condition.players@.len() <= MAX_PLAYERS,
            dealable(condition),
            tables_ready(condition, lut),
        ensures
            t.counts(
                lut_scorer(condition.iterations, lut),
                Shuffle::Lemire,
                condition_slots(condition),
                start_state(seed),
                condition.iterations as nat,
            ),
            t.balanced(condition.iterations as int),
    {
        let sc = scorer_for(condition.iterations, lut);
        let mut rng = Rng::from_seed(seed);
        proof {
            lemma_few_players(condition.players@.len() as int);
        }
        run_condition(&sc, Shuffle::Lemire, condition, &mut rng)
    }
}

} // verus!
