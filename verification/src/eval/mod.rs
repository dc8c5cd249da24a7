//! Hand codes shared by every evaluator, and the sorting helpers they use.

pub mod agree;
pub mod agree_buckets;
pub mod agree_seven;
pub mod count;
pub mod eval7;
pub mod fast;
pub mod fisher;
pub mod lut;
pub mod lut_par;
pub mod model;
pub mod naive;
pub mod rng;
pub mod score;
pub mod sort;
pub mod deal;
pub mod sim;
pub mod sort_free;

use vstd::prelude::*;
use crate::card::Card;

verus! {

/// Hand categories, weakest first; the category is the top nibble group of a hand code.
pub const HIGH_CARD: u8 = 0;
pub const PAIR: u8 = 1;
pub const TWO_PAIR: u8 = 2;
pub const THREE_KIND: u8 = 3;
pub const STRAIGHT: u8 = 4;
pub const FLUSH: u8 = 5;
pub const FULL_HOUSE: u8 = 6;
pub const FOUR_KIND: u8 = 7;
pub const STR_FLUSH: u8 = 8;
pub const ROYAL_FLUSH: u8 = 9;

/// A game state to simulate: each player's two hole cards and the five board cards, any of
/// them possibly unknown, and the number of deals to play out.
pub struct Condition {
    pub players: Vec<[Option<Card>; 2]>,
    pub board: [Option<Card>; 5],
    pub iterations: u32,
}

/// Most players a table-based evaluator handles.
pub const MAX_PLAYERS: usize = 9;

/// The hand code of a category and five tiebreak ranks, each a nibble:
/// the category in bits 20..24, then the tiebreak ranks from bit 16 down to bit 0.
pub open spec fn code_of(cat: int, t0: int, t1: int, t2: int, t3: int, t4: int) -> int {
    cat * 1048576 + t0 * 65536 + t1 * 4096 + t2 * 256 + t3 * 16 + t4
}

/// Whether every argument of a hand code fits in one nibble.
pub open spec fn nibbles(cat: int, t0: int, t1: int, t2: int, t3: int, t4: int) -> bool {
    &&& 0 <= cat < 16
    &&& 0 <= t0 < 16
    &&& 0 <= t1 < 16
    &&& 0 <= t2 < 16
    &&& 0 <= t3 < 16
    &&& 0 <= t4 < 16
}

/// The category held in a hand code.
pub open spec fn category_of(code: int) -> int {
    code / 1048576
}

/// Packs a category and five tiebreak ranks into one comparable code.
pub fn pack(cat: u8, t0: u8, t1: u8, t2: u8, t3: u8, t4: u8) -> (r: u32)
    ensures
        r == ((cat as u32) << 20u32) | ((t0 as u32) << 16u32) | ((t1 as u32) << 12u32) | ((
        t2 as u32) << 8u32) | ((t3 as u32) << 4u32) | (t4 as u32),
        nibbles(cat as int, t0 as int, t1 as int, t2 as int, t3 as int, t4 as int) ==> r
            == code_of(cat as int, t0 as int, t1 as int, t2 as int, t3 as int, t4 as int),
{
    let (c, a, b, d, e, f) = (cat as u32, t0 as u32, t1 as u32, t2 as u32, t3 as u32, t4 as u32);
    let r = (c << 20u32) | (a << 16u32) | (b << 12u32) | (d << 8u32) | (e << 4u32) | f;
    proof {
        if nibbles(cat as int, t0 as int, t1 as int, t2 as int, t3 as int, t4 as int) {
            lemma_pack_is_sum(c, a, b, d, e, f);
        }
    }
    r
}

proof fn lemma_pack_is_sum(c: u32, a: u32, b: u32, d: u32, e: u32, f: u32)
    requires
        c < 16,
        a < 16,
        b < 16,
        d < 16,
        e < 16,
        f < 16,
    ensures
        (c << 20u32) | (a << 16u32) | (b << 12u32) | (d << 8u32) | (e << 4u32) | f == c * 1048576
            + a * 65536 + b * 4096 + d * 256 + e * 16 + f,
{
    assert((c << 20u32) | (a << 16u32) | (b << 12u32) | (d << 8u32) | (e << 4u32) | f == c
        * 1048576 + a * 65536 + b * 4096 + d * 256 + e * 16 + f) by (bit_vector)
        requires
            c < 16,
            a < 16,
            b < 16,
            d < 16,
            e < 16,
            f < 16,
    ;
}

/// The category of a code is read from its top bits.
pub fn category(code: u32) -> (c: u32)
    ensures
        c == category_of(code as int),
{
    assert(code >> 20u32 == code / 1048576) by (bit_vector);
    code >> 20u32
}

/// Hand codes compare as their nibbles compare, most significant first: a larger code is a
/// stronger hand exactly when its category is higher, or equal with a higher first differing
/// tiebreak rank.
pub proof fn lemma_code_order(
    c: int,
    a0: int,
    a1: int,
    a2: int,
    a3: int,
    a4: int,
    d: int,
    b0: int,
    b1: int,
    b2: int,
    b3: int,
    b4: int,
)
    requires
        nibbles(c, a0, a1, a2, a3, a4),
        nibbles(d, b0, b1, b2, b3, b4),
    ensures
        (code_of(c, a0, a1, a2, a3, a4) < code_of(d, b0, b1, b2, b3, b4)) <==> (c < d || (c == d
            && (a0 < b0 || (a0 == b0 && (a1 < b1 || (a1 == b1 && (a2 < b2 || (a2 == b2 && (a3
            < b3 || (a3 == b3 && a4 < b4)))))))))),
        (code_of(c, a0, a1, a2, a3, a4) == code_of(d, b0, b1, b2, b3, b4)) <==> (c == d && a0
            == b0 && a1 == b1 && a2 == b2 && a3 == b3 && a4 == b4),
        category_of(code_of(c, a0, a1, a2, a3, a4)) == c,
{
}

} // verus!
