//! XorShift64 generator and the deck shuffles built on it.

use vstd::prelude::*;
use crate::card::Card;

verus! {

/// One XorShift64 step: xor with the state shifted left 13, right 7, then left 17.
pub open spec fn xorshift(x: u64) -> u64 {
    let a = x ^ (x << 13u64);
    let b = a ^ (a >> 7u64);
    b ^ (b << 17u64)
}

/// The 64-bit golden-ratio constant used to spread thread seeds.
pub const GOLDEN: u64 = 0x9e37_79b9_7f4a_7c15;

/// Seed used when the clock cannot be read.
pub const FALLBACK_SEED: u64 = 0xdead_beef_cafe_babe;

/// XorShift64 generator state; it is never zero.
pub struct Rng(pub u64);

impl Rng {
    /// A generator started from `seed`, with a zero seed replaced by 1.
    pub fn from_seed(seed: u64) -> (r: Rng)
        ensures
            r.0 == (if seed == 0 { 1u64 } else { seed }),
    {
        Rng(if seed == 0 { 1 } else { seed })
    }

    /// A generator for worker `tid`: the base seed xor `tid` times the golden-ratio constant
    /// (wrapping), with a zero seed replaced by 1.
    pub fn new_seeded(base: u64, tid: usize) -> (r: Rng)
        ensures
            r.0 == seeded_state(base, tid as u64),
    {
        let seed = base ^ (tid as u64).wrapping_mul(GOLDEN);
        Rng::from_seed(seed)
    }

    /// Advances the state one XorShift64 step and returns the new state.
    pub fn next(&mut self) -> (x: u64)
        ensures
            x == xorshift(old(self).0),
            final(self).0 == x,
    {
        self.0 = self.0 ^ (self.0 << 13u64);
        self.0 = self.0 ^ (self.0 >> 7u64);
        self.0 = self.0 ^ (self.0 << 17u64);
        self.0
    }
}

/// The state a worker's generator starts from.
pub open spec fn seeded_state(base: u64, tid: u64) -> u64 {
    let seed = base ^ vstd::wrapping::u64_specs::wrapping_mul(tid, GOLDEN);
    if seed == 0 {
        1
    } else {
        seed
    }
}

/// Swaps two entries of a sequence.
pub open spec fn swap_at<A>(s: Seq<A>, i: int, j: int) -> Seq<A> {
    s.update(i, s[j]).update(j, s[i])
}

/// The deck and state after the full Fisher-Yates steps for positions `i` down to 1: at
/// position `i` a fresh value `x` picks `j = x mod (i + 1)` and swaps positions `i` and `j`.
pub open spec fn shuffle_from(d: Seq<Card>, x: u64, i: int) -> (Seq<Card>, u64)
    decreases i,
{
    if i < 1 {
        (d, x)
    } else {
        let y = xorshift(x);
        let j = (y as usize) as int % (i + 1);
        shuffle_from(swap_at(d, i, j), y, i - 1)
    }
}

/// The full shuffle of a deck from a generator state.
pub open spec fn full_shuffle(d: Seq<Card>, x: u64) -> (Seq<Card>, u64) {
    shuffle_from(d, x, d.len() - 1)
}

/// Shuffles the whole deck: for each position from the last down to 1, swaps it with a
/// position drawn below or at it.
pub fn shuffle(rng: &mut Rng, v: &mut Vec<Card>)
    ensures
        (final(v)@, final(rng).0) == full_shuffle(old(v)@, old(rng).0),
{
    let n = v.len();
    if n == 0 {
        return;
    }
    let mut i: usize = n - 1;
    while i >= 1
        invariant
            i < n,
            n == v@.len(),
            full_shuffle(old(v)@, old(rng).0) == shuffle_from(v@, rng.0, i as int),
        decreases i,
    {
        let j = (rng.next() as usize) % (i + 1);
        let a = v[i];
        let b = v[j];
        v.set(i, b);
        v.set(j, a);
        i = i - 1;
    }
}

/// Lemire's reduction of a 64-bit value to `0..range`: the high 64 bits of the 128-bit
/// product.
pub open spec fn lemire(x: u64, range: u64) -> int {
    (((x as u128 * range as u128) as u128) >> 64u128) as int
}

/// The reduction lands below the range.
pub proof fn lemma_lemire_bound(x: u64, range: u64)
    requires
        range >= 1,
    ensures
        0 <= lemire(x, range) < range,
        x as int * range as int <= 0xffff_ffff_ffff_fffe_0000_0000_0000_0001,
{
    let p: u128 = (x as u128 * range as u128) as u128;
    assert(p >> 64u128 == p / 0x1_0000_0000_0000_0000u128) by (bit_vector);
    assert((x as int * range as int) / 0x1_0000_0000_0000_0000 < range as int) by (nonlinear_arith)
        requires
            0 <= x < 0x1_0000_0000_0000_0000,
            range >= 1,
    ;
    assert(x as int * range as int <= 0xffff_ffff_ffff_fffe_0000_0000_0000_0001) by (
    nonlinear_arith)
        requires
            x < 0x1_0000_0000_0000_0000,
            range < 0x1_0000_0000_0000_0000,
    ;
    assert(p == x as int * range as int);
}

/// The deck and state after the partial Fisher-Yates steps with Lemire's reduction for
/// positions `i` up to `k - 1`: `j = i + lemire(x, len - i)`.
pub open spec fn lemire_from(d: Seq<Card>, x: u64, i: int, k: int) -> (Seq<Card>, u64)
    decreases k - i,
{
    if i >= k {
        (d, x)
    } else {
        let y = xorshift(x);
        let j = i + lemire(y, (d.len() - i) as u64);
        lemire_from(swap_at(d, i, j), y, i + 1, k)
    }
}

/// Partial Fisher-Yates: only the first `k` positions are drawn, each with Lemire's
/// multiply-shift reduction of a fresh value (no modulo).
pub fn partial_shuffle(rng: &mut Rng, v: &mut Vec<Card>, k: usize)
    requires
        k <= old(v)@.len(),
    ensures
        (final(v)@, final(rng).0) == lemire_from(old(v)@, old(rng).0, 0, k as int),
{
    let n = v.len();
    let mut i: usize = 0;
    while i < k
        invariant
            i <= k <= n,
            n == v@.len(),
            lemire_from(old(v)@, old(rng).0, 0, k as int) == lemire_from(
                v@,
                rng.0,
                i as int,
                k as int,
            ),
        decreases k - i,
    {
        let range = (n - i) as u64;
        let x = rng.next();
        proof {
            lemma_lemire_bound(x, range);
        }
        let j = i + ((x as u128 * range as u128) >> 64u128) as usize;
        let a = v[i];
        let b = v[j];
        v.set(i, b);
        v.set(j, a);
        i = i + 1;
    }
}

/// A worker's seed before a zero seed is replaced by 1.
pub open spec fn raw_seed(base: u64, tid: u64) -> u64 {
    base ^ vstd::wrapping::u64_specs::wrapping_mul(tid, GOLDEN)
}

/// Multiplying by the odd golden-ratio constant modulo 2^64 loses nothing: different worker
/// numbers give different products.
proof fn lemma_golden_injective(t1: u64, t2: u64)
    requires
        vstd::wrapping::u64_specs::wrapping_mul(t1, GOLDEN) == vstd::wrapping::u64_specs::wrapping_mul(
            t2,
            GOLDEN,
        ),
    ensures
        t1 == t2,
{
    let m: int = 0x1_0000_0000_0000_0000;
    let g: int = GOLDEN as int;
    let inv: int = 0xf1de_83e1_9937_733d;
    let k: int = 10771413168148108919;
    let p1 = t1 as int * g;
    let p2 = t2 as int * g;
    assert(p1 >= 0 && p2 >= 0) by (nonlinear_arith)
        requires
            p1 == t1 as int * g,
            p2 == t2 as int * g,
            g >= 0,
    ;
    vstd::arithmetic::div_mod::lemma_fundamental_div_mod(p1, m);
    vstd::arithmetic::div_mod::lemma_fundamental_div_mod(p2, m);
    let q1 = p1 / m;
    let q2 = p2 / m;
    assert(p1 % m == p2 % m);
    let d = t1 as int - t2 as int;
    let e = q1 - q2;
    assert(d * g == e * m) by (nonlinear_arith)
        requires
            p1 == t1 as int * g,
            p2 == t2 as int * g,
            p1 == m * q1 + p1 % m,
            p2 == m * q2 + p2 % m,
            p1 % m == p2 % m,
            d == t1 as int - t2 as int,
            e == q1 - q2,
    ;
    assert(g * inv == 1 + k * m);
    assert(d == m * (e * inv - d * k)) by (nonlinear_arith)
        requires
            d * g == e * m,
            g * inv == 1 + k * m,
    ;
    let z = e * inv - d * k;
    assert(z == 0) by (nonlinear_arith)
        requires
            d == m * z,
            -m < d < m,
            m > 0,
    ;
}

/// Different workers start from different generator states, except when their two seeds
/// are 0 and 1, which both become 1.
pub proof fn lemma_seeds_distinct(base: u64, t1: u64, t2: u64)
    requires
        t1 != t2,
        !(raw_seed(base, t1) <= 1 && raw_seed(base, t2) <= 1),
    ensures
        seeded_state(base, t1) != seeded_state(base, t2),
{
    let a = vstd::wrapping::u64_specs::wrapping_mul(t1, GOLDEN);
    let b = vstd::wrapping::u64_specs::wrapping_mul(t2, GOLDEN);
    if a == b {
        lemma_golden_injective(t1, t2);
    }
    assert(a != b ==> base ^ a != base ^ b) by (bit_vector);
}

/// Undoes `z ^ (z << 17)`.
pub open spec fn undo_left17(y: u64) -> u64 {
    y ^ (y << 17u64) ^ (y << 34u64) ^ (y << 51u64)
}

/// Undoes `z ^ (z >> 7)`.
pub open spec fn undo_right7(y: u64) -> u64 {
    y ^ (y >> 7u64) ^ (y >> 14u64) ^ (y >> 21u64) ^ (y >> 28u64) ^ (y >> 35u64) ^ (y >> 42u64) ^ (y
        >> 49u64) ^ (y >> 56u64) ^ (y >> 63u64)
}

/// Undoes `z ^ (z << 13)`.
pub open spec fn undo_left13(y: u64) -> u64 {
    y ^ (y << 13u64) ^ (y << 26u64) ^ (y << 39u64) ^ (y << 52u64)
}

/// The generator state that one step takes to `y`.
pub open spec fn xorshift_back(y: u64) -> u64 {
    undo_left13(undo_right7(undo_left17(y)))
}

/// Every value is one step away from some state, and a nonzero value from a nonzero state:
/// the generator step is onto.
pub proof fn lemma_xorshift_onto(y: u64)
    ensures
        xorshift(xorshift_back(y)) == y,
        y != 0 ==> xorshift_back(y) != 0,
{
    let c = undo_left17(y);
    let b = undo_right7(c);
    let a = undo_left13(b);
    assert(c ^ (c << 17u64) == y) by (bit_vector)
        requires
            c == y ^ (y << 17u64) ^ (y << 34u64) ^ (y << 51u64),
    ;
    assert(b ^ (b >> 7u64) == c) by (bit_vector)
        requires
            b == c ^ (c >> 7u64) ^ (c >> 14u64) ^ (c >> 21u64) ^ (c >> 28u64) ^ (c >> 35u64) ^ (c
                >> 42u64) ^ (c >> 49u64) ^ (c >> 56u64) ^ (c >> 63u64),
    ;
    assert(a ^ (a << 13u64) == b) by (bit_vector)
        requires
            a == b ^ (b << 13u64) ^ (b << 26u64) ^ (b << 39u64) ^ (b << 52u64),
    ;
    let z: u64 = 0;
    assert(xorshift(z) == 0) by (bit_vector)
        requires
            z == 0,
    ;
}

/// A draw of Lemire's reduction can land on any place below its range.
pub proof fn lemma_lemire_onto(t: int, range: u64) -> (y: u64)
    requires
        0 <= t < range,
    ensures
        y != 0,
        lemire(y, range) == t,
{
    let n: int = 0x1_0000_0000_0000_0000;
    let yi: int = if t == 0 {
        1
    } else {
        (t * n + range - 1) / (range as int)
    };
    assert(0 < yi < n && t * n <= yi * range < (t + 1) * n) by (nonlinear_arith)
        requires
            0 <= t < range,
            range < n,
            n == 0x1_0000_0000_0000_0000,
            yi == (if t == 0 {
                1
            } else {
                (t * n + range - 1) / (range as int)
            }),
    ;
    let y = yi as u64;
    let prod: u128 = (y as u128 * range as u128) as u128;
    assert(prod == yi * range) by (nonlinear_arith)
        requires
            prod == (y as u128 * range as u128) as u128,
            y == yi,
            0 < yi < n,
            range < n,
            n == 0x1_0000_0000_0000_0000,
    ;
    assert(prod >> 64u128 == prod / 0x1_0000_0000_0000_0000u128) by (bit_vector);
    assert((yi * range) / n == t) by (nonlinear_arith)
        requires
            t * n <= yi * range < (t + 1) * n,
            n == 0x1_0000_0000_0000_0000,
    ;
    y
}

/// Each step of the full shuffle can swap its position with any position at or below it: for
/// every deck, every step `i` and every `j <= i` some nonzero generator state makes that step
/// exchange the cards at `i` and `j`.
pub proof fn lemma_full_step_reaches(d: Seq<Card>, i: int, j: int)
    requires
        1 <= i < d.len(),
        d.len() <= usize::MAX,
        0 <= j <= i,
    ensures
        exists|x: u64|
            x != 0 && shuffle_from(d, x, i) == shuffle_from(
                d.update(i, d[j]).update(j, d[i]),
                xorshift(x),
                i - 1,
            ),
{
    let y: u64 = if j == 0 {
        (i + 1) as u64
    } else {
        j as u64
    };
    lemma_xorshift_onto(y);
    let x = xorshift_back(y);
    assert((y as usize) as int == y);
    if j == 0 {
        assert((i + 1) % (i + 1) == 0) by (nonlinear_arith)
            requires
                i >= 1,
        ;
    } else {
        assert(j % (i + 1) == j) by (nonlinear_arith)
            requires
                0 < j <= i,
        ;
    }
    assert((y as usize) as int % (i + 1) == j);
    assert(shuffle_from(d, x, i) == shuffle_from(swap_at(d, i, j), y, i - 1));
}

/// Each step of the partial shuffle can swap its position with any position of the rest of the
/// deck: for every deck, every `k`, every step `i < k` and every `p` from `i` to the end, some
/// nonzero generator state makes step `i` exchange the cards at `i` and `p` (so cards beyond
/// the first `k` places can be drawn).
pub proof fn lemma_partial_step_reaches(d: Seq<Card>, i: int, k: int, p: int)
    requires
        0 <= i < k <= d.len(),
        i <= p < d.len(),
        d.len() <= usize::MAX,
    ensures
        exists|x: u64|
            x != 0 && lemire_from(d, x, i, k) == lemire_from(
                d.update(i, d[p]).update(p, d[i]),
                xorshift(x),
                i + 1,
                k,
            ),
{
    let range = (d.len() - i) as u64;
    let y = lemma_lemire_onto(p - i, range);
    lemma_xorshift_onto(y);
    let x = xorshift_back(y);
    assert(lemire_from(d, x, i, k) == lemire_from(swap_at(d, i, p), y, i + 1, k));
}

} // verus!
