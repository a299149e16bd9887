//! Linear counting: cardinality estimation from a single seen/unseen
//! bitmap.
//!
//! Each item hashes to one bit; the running count of still-unset bits
//! drives the estimate, which the caller computes from `zeros` and the
//! bitmap size.

use vstd::prelude::*;

verus! {

use core::marker::PhantomData;
use fixedbitset::FixedBitSet;
use crate::bitset::bits_of;
use crate::bitset::count_trues;
use crate::bitset::fbs_len;
use crate::bitset::fbs_put;
use crate::bitset::fbs_with_capacity;
use crate::bitset::lemma_count_trues_all_false;
use crate::bitset::lemma_count_trues_le_len;
use crate::bitset::lemma_count_trues_update_true;
use crate::hash::BuildHash;

/// Cardinality estimation state: a bitmap plus the running count of
/// unset bits, which only ever decreases.
pub struct LinearCount<T, H> {
    bits: FixedBitSet,
    zeros: usize,
    build_hasher: H,
    _phantom: PhantomData<T>,
}

impl<T, H: BuildHash<T>> LinearCount<T, H> {
    /// The bitmap contents.
    pub closed spec fn bitmap(&self) -> Seq<bool> {
        bits_of(self.bits)
    }

    /// How many bits are still unset.
    pub closed spec fn spec_zeros(&self) -> nat {
        self.zeros as nat
    }

    pub closed spec fn hasher(&self) -> H {
        self.build_hasher
    }

    pub open spec fn wf(&self) -> bool {
        &&& 0 < self.bitmap().len() <= usize::MAX
        &&& self.spec_zeros() + count_trues(self.bitmap()) == self.bitmap().len()
    }

    /// The bit position of `item`.
    pub open spec fn spec_position(&self, item: T) -> int {
        ((self.hasher().hash_spec(item, 0) as usize) % (self.bitmap().len() as usize)) as int
    }

    /// Repeated insertion of the same item never changes the counter
    /// after the first insertion: stated over the relation that `insert`
    /// ensures between consecutive states.
    pub proof fn lemma_insert_idempotent(pre: Self, mid: Self, post: Self, item: T)
        requires
            pre.wf(),
            mid.hasher() == pre.hasher(),
            mid.bitmap() == pre.bitmap().update(pre.spec_position(item), true),
            post.bitmap() == mid.bitmap().update(mid.spec_position(item), true),
            post.spec_zeros() == mid.spec_zeros() - (if mid.bitmap()[mid.spec_position(item)] {
                0int
            } else {
                1int
            }),
        ensures
            post.bitmap() == mid.bitmap(),
            post.spec_zeros() == mid.spec_zeros(),
    {
        let pos = pre.spec_position(item);
        assert(0 <= pos < pre.bitmap().len());
        assert(mid.bitmap().len() == pre.bitmap().len());
        assert(mid.spec_position(item) == pos);
        assert(mid.bitmap()[pos]);
        assert(mid.bitmap().update(pos, true) =~= mid.bitmap());
    }

    /// A counter over `num_bits` unset bits.
    pub fn new(num_bits: usize, build_hasher: H) -> (r: Self)
        requires
            num_bits > 0,
        ensures
            r.wf(),
            r.bitmap().len() == num_bits,
            r.spec_zeros() == num_bits,
            r.hasher() == build_hasher,
            forall|i: int| 0 <= i < num_bits ==> !r.bitmap()[i],
    {
        let bits = fbs_with_capacity(num_bits);
        proof {
            lemma_count_trues_all_false(bits_of(bits));
        }
        LinearCount { bits, zeros: num_bits, build_hasher, _phantom: PhantomData }
    }

    /// The bitmap size `m`.
    pub fn num_bits(&self) -> (r: usize)
        ensures
            r == self.bitmap().len(),
    {
        fbs_len(&self.bits)
    }

    /// How many bits are still unset; the estimate is derived from this.
    pub fn zeros(&self) -> (r: usize)
        ensures
            r == self.spec_zeros(),
    {
        self.zeros
    }

    /// Record `item`: set its bit, and lower the unset-bit count when the
    /// bit was previously unset.
    pub fn insert(&mut self, item: &T)
        requires
            old(self).wf(),
        ensures
            final(self).wf(),
            final(self).hasher() == old(self).hasher(),
            final(self).bitmap() == old(self).bitmap().update(
                old(self).spec_position(*item),
                true,
            ),
            final(self).spec_zeros() == old(self).spec_zeros() - (if old(self).bitmap()[old(
                self,
            ).spec_position(*item)] {
                0int
            } else {
                1int
            }),
    {
        let hash = self.build_hasher.hash(item, 0);
        let m = fbs_len(&self.bits);
        let index = (#[verifier::truncate] (hash as usize)) % m;
        proof {
            lemma_count_trues_update_true(self.bitmap(), index as int);
        }
        let prev = fbs_put(&mut self.bits, index);
        if !prev {
            proof {
                lemma_count_trues_le_len(self.bitmap());
            }
            self.zeros -= 1;
        }
    }
}

} // verus!
