//! Descending sorts of short prefixes of byte arrays and of (rank, count) arrays.

use vstd::prelude::*;
use vstd::relations::{sorted_by, total_ordering};

verus! {

/// Descending order on bytes.
pub open spec fn desc_u8() -> spec_fn(u8, u8) -> bool {
    |a: u8, b: u8| a >= b
}

/// Order of (rank, count) groups: larger count first, then higher rank.
pub open spec fn group_first(a: (u8, u8), b: (u8, u8)) -> bool {
    a.1 > b.1 || (a.1 == b.1 && a.0 >= b.0)
}

/// The group order as a relation.
pub open spec fn group_leq() -> spec_fn((u8, u8), (u8, u8)) -> bool {
    |a: (u8, u8), b: (u8, u8)| group_first(a, b)
}

pub proof fn lemma_desc_u8_total()
    ensures
        total_ordering(desc_u8()),
{
}

pub proof fn lemma_group_leq_total()
    ensures
        total_ordering(group_leq()),
{
    assert forall|a: (u8, u8), b: (u8, u8)|
        #[trigger] group_leq()(a, b) && #[trigger] group_leq()(b, a) implies a == b by {
        assert(a.0 == b.0 && a.1 == b.1);
    }
}

/// Swapping two positions of a sequence keeps its multiset.
pub proof fn lemma_swap_multiset<A>(s: Seq<A>, i: int, j: int)
    requires
        0 <= i < s.len(),
        0 <= j < s.len(),
    ensures
        s.update(i, s[j]).update(j, s[i]).to_multiset() =~= s.to_multiset(),
{
    broadcast use vstd::seq_lib::group_to_multiset_ensures;
    broadcast use vstd::multiset::group_multiset_axioms;

    let t = s.update(i, s[j]);
    assert(t.to_multiset() == s.to_multiset().insert(s[j]).remove(s[i]));
    assert(t[j] == (if i == j { s[j] } else { s[j] }));
    assert(t.update(j, s[i]).to_multiset() == t.to_multiset().insert(s[i]).remove(t[j]));
}

/// Sorts the first `n` bytes of `v` in descending order and leaves the rest alone.
pub fn sort_desc<const N: usize>(v: &mut [u8; N], n: usize)
    requires
        n <= N,
    ensures
        final(v)@.subrange(0, n as int) == old(v)@.subrange(0, n as int).sort_by(desc_u8()),
        final(v)@.subrange(n as int, N as int) == old(v)@.subrange(n as int, N as int),
{
    let ghost orig = v@;
    let mut i: usize = 0;
    while i < n
        invariant
            i <= n <= N,
            v@.len() == N,
            v@.subrange(n as int, N as int) == orig.subrange(n as int, N as int),
            v@.subrange(0, n as int).to_multiset() == orig.subrange(0, n as int).to_multiset(),
            forall|a: int, b: int| 0 <= a < b < i ==> v@[a] >= v@[b],
            forall|a: int, b: int| 0 <= a < i <= b < n ==> v@[a] >= v@[b],
        decreases n - i,
    {
        let mut m: usize = i;
        let mut k: usize = i + 1;
        while k < n
            invariant
                i <= m < k <= n,
                n <= N,
                v@.len() == N,
                forall|b: int| i <= b < k ==> v@[m as int] >= v@[b],
            decreases n - k,
        {
            if v[k] > v[m] {
                m = k;
            }
            k = k + 1;
        }
        let ghost before = v@;
        let x = v[i];
        let y = v[m];
        v[i] = y;
        v[m] = x;
        proof {
            assert(v@ == before.update(i as int, before[m as int]).update(
                m as int,
                before[i as int],
            ));
            let sb = before.subrange(0, n as int);
            lemma_swap_multiset(sb, i as int, m as int);
            assert(v@.subrange(0, n as int) =~= sb.update(i as int, sb[m as int]).update(
                m as int,
                sb[i as int],
            ));
            assert(v@.subrange(n as int, N as int) =~= before.subrange(n as int, N as int));
        }
        i = i + 1;
    }
    proof {
        let res = v@.subrange(0, n as int);
        let src = orig.subrange(0, n as int);
        lemma_desc_u8_total();
        src.lemma_sort_by_ensures(desc_u8());
        assert(sorted_by(res, desc_u8()));
        vstd::seq_lib::lemma_sorted_unique(res, src.sort_by(desc_u8()), desc_u8());
    }
}

/// Sorts the first `n` (rank, count) groups of `v`, larger count first and then higher rank,
/// and leaves the rest alone.
pub fn sort_groups<const N: usize>(v: &mut [(u8, u8); N], n: usize)
    requires
        n <= N,
    ensures
        final(v)@.subrange(0, n as int) == old(v)@.subrange(0, n as int).sort_by(group_leq()),
        final(v)@.subrange(n as int, N as int) == old(v)@.subrange(n as int, N as int),
{
    let ghost orig = v@;
    let mut i: usize = 0;
    while i < n
        invariant
            i <= n <= N,
            v@.len() == N,
            v@.subrange(n as int, N as int) == orig.subrange(n as int, N as int),
            v@.subrange(0, n as int).to_multiset() == orig.subrange(0, n as int).to_multiset(),
            forall|a: int, b: int| 0 <= a < b < i ==> group_first(v@[a], v@[b]),
            forall|a: int, b: int| 0 <= a < i <= b < n ==> group_first(v@[a], v@[b]),
        decreases n - i,
    {
        let mut m: usize = i;
        let mut k: usize = i + 1;
        while k < n
            invariant
                i <= m < k <= n,
                n <= N,
                v@.len() == N,
                forall|b: int| i <= b < k ==> group_first(v@[m as int], v@[b]),
            decreases n - k,
        {
            let (kr, kc) = v[k];
            let (mr, mc) = v[m];
            if kc > mc || (kc == mc && kr > mr) {
                m = k;
            }
            k = k + 1;
        }
        let ghost before = v@;
        let x = v[i];
        let y = v[m];
        v[i] = y;
        v[m] = x;
        proof {
            assert(v@ == before.update(i as int, before[m as int]).update(
                m as int,
                before[i as int],
            ));
            let sb = before.subrange(0, n as int);
            lemma_swap_multiset(sb, i as int, m as int);
            assert(v@.subrange(0, n as int) =~= sb.update(i as int, sb[m as int]).update(
                m as int,
                sb[i as int],
            ));
            assert(v@.subrange(n as int, N as int) =~= before.subrange(n as int, N as int));
        }
        i = i + 1;
    }
    proof {
        let res = v@.subrange(0, n as int);
        let src = orig.subrange(0, n as int);
        lemma_group_leq_total();
        src.lemma_sort_by_ensures(group_leq());
        assert(sorted_by(res, group_leq()));
        vstd::seq_lib::lemma_sorted_unique(res, src.sort_by(group_leq()), group_leq());
    }
}

} // verus!
