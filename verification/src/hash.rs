//! Order-independent 64-bit fingerprint of a set of column indices.
//!
//! Each index is avalanched with two rounds of the Fowler-Noll-Vo
//! construction (one per byte of the index), and the per-element hashes
//! are combined with exclusive-or, so the fingerprint depends only on
//! the multiset of indices, never on their order.

use vstd::prelude::*;

verus! {

/// One Fowler-Noll-Vo round: mix one byte into the state.
pub open spec fn fnv_round(h: u64, b: u64) -> u64 {
    vstd::wrapping::u64_specs::wrapping_mul(h ^ b, 0x100000001b3)
}

/// The avalanche hash of a single column index: the Fowler-Noll-Vo
/// offset basis mixed with the low byte, then the high byte.
pub open spec fn elem_hash(i: u16) -> u64 {
    fnv_round(fnv_round(0xcbf29ce484222325, (i & 0xff) as u64), (i >> 8) as u64)
}

/// The fingerprint of a sequence of column indices: the exclusive-or of
/// the per-element hashes.
pub open spec fn set_hash(s: Seq<u16>) -> u64
    decreases s.len(),
{
    if s.len() == 0 {
        0
    } else {
        set_hash(s.drop_last()) ^ elem_hash(s.last())
    }
}

/// Computes the order-independent fingerprint of `items`.
pub fn bloom_set_hash(items: &[u16]) -> (out: u64)
    ensures
        out == set_hash(items@),
{
    let mut out: u64 = 0;
    let mut idx: usize = 0;
    while idx < items.len()
        invariant
            idx <= items.len(),
            out == set_hash(items@.take(idx as int)),
        decreases items.len() - idx,
    {
        let i: u16 = items[idx];
        let mut h: u64 = 0xcbf29ce484222325;
        h = (h ^ ((i & 0xff) as u64)).wrapping_mul(0x100000001b3);
        h = (h ^ ((i >> 8) as u64)).wrapping_mul(0x100000001b3);
        proof {
            assert(h == elem_hash(i));
            assert(items@.take(idx + 1).drop_last() =~= items@.take(idx as int));
            assert(items@.take(idx + 1).last() == items@[idx as int]);
        }
        out = out ^ h;
        idx = idx + 1;
    }
    proof {
        assert(items@.take(items@.len() as int) =~= items@);
    }
    out
}

proof fn lemma_xor_comm(a: u64, b: u64)
    ensures
        a ^ b == b ^ a,
{
    assert(a ^ b == b ^ a) by (bit_vector);
}

proof fn lemma_xor_assoc(a: u64, b: u64, c: u64)
    ensures
        (a ^ b) ^ c == a ^ (b ^ c),
{
    assert((a ^ b) ^ c == a ^ (b ^ c)) by (bit_vector);
}

/// Removing one element from anywhere in the sequence removes exactly
/// its contribution from the fingerprint.
proof fn lemma_set_hash_remove(s: Seq<u16>, i: int)
    requires
        0 <= i < s.len(),
    ensures
        set_hash(s) == set_hash(s.remove(i)) ^ elem_hash(s[i]),
    decreases s.len(),
{
    if i == s.len() - 1 {
        assert(s.remove(i) =~= s.drop_last());
    } else {
        let t = s.drop_last();
        lemma_set_hash_remove(t, i);
        assert(s.remove(i).drop_last() =~= t.remove(i));
        assert(s.remove(i).last() == s.last());
        lemma_xor_assoc(set_hash(t.remove(i)), elem_hash(t[i]), elem_hash(s.last()));
        lemma_xor_comm(elem_hash(t[i]), elem_hash(s.last()));
        lemma_xor_assoc(set_hash(t.remove(i)), elem_hash(s.last()), elem_hash(t[i]));
    }
}

/// The fingerprint is invariant under permutation: two index sequences
/// carrying the same multiset of indices hash identically.
pub proof fn lemma_set_hash_permutation(s1: Seq<u16>, s2: Seq<u16>)
    requires
        s1.to_multiset() == s2.to_multiset(),
    ensures
        set_hash(s1) == set_hash(s2),
    decreases s1.len(),
{
    broadcast use vstd::seq_lib::group_to_multiset_ensures;

    if s1.len() == 0 {
        assert(s1.to_multiset().len() == s1.len());
        assert(s2.to_multiset().len() == s2.len());
        assert(s2.len() == 0);
    } else {
        let x = s1.last();
        assert(s1.contains(x));
        assert(s1.to_multiset().count(x) > 0);
        assert(s2.to_multiset().count(x) > 0);
        assert(s2.contains(x));
        let j = choose|j: int| 0 <= j < s2.len() && s2[j] == x;
        let t1 = s1.drop_last();
        let t2 = s2.remove(j);
        assert(s1.remove(s1.len() - 1) =~= t1);
        assert(t1.to_multiset() == s1.to_multiset().remove(x));
        assert(t2.to_multiset() == s2.to_multiset().remove(x));
        lemma_set_hash_permutation(t1, t2);
        lemma_set_hash_remove(s2, j);
    }
}

} // verus!
