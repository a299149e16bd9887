//! Bloom filter: probabilistic set membership with false positives only.
//!
//! A bitmap of `m` bits and `k` hash positions per item, derived by
//! enhanced double hashing from the injected hash family.  Bits only
//! accumulate until an explicit clear, which is what rules out false
//! negatives.

use vstd::prelude::*;

verus! {

use core::marker::PhantomData;
use fixedbitset::FixedBitSet;
use crate::bitset::bits_of;
use crate::bitset::count_trues;
use crate::bitset::fbs_clear;
use crate::bitset::fbs_contains;
use crate::bitset::fbs_count_ones;
use crate::bitset::fbs_is_empty;
use crate::bitset::fbs_len;
use crate::bitset::fbs_put;
use crate::bitset::fbs_with_capacity;
use crate::hash::BuildHash;
use crate::hash::double_hash_value;
use crate::hash::lemma_double_hash_value_bounded;
use crate::hash::next_k;

/// Probabilistic set membership: `insert` can only set bits, `contains`
/// reports whether every hashed position of an item is set.
pub struct BloomFilter<T, H> {
    bits: FixedBitSet,
    num_hashes: usize,
    build_hasher: H,
    _phantom: PhantomData<T>,
}

impl<T, H: BuildHash<T>> BloomFilter<T, H> {
    /// The bitmap contents, one boolean per bit.
    pub closed spec fn bitmap(&self) -> Seq<bool> {
        bits_of(self.bits)
    }

    /// The injected hash family.
    pub closed spec fn hasher(&self) -> H {
        self.build_hasher
    }

    /// How many hashed positions each item maps to.
    pub closed spec fn spec_num_hashes(&self) -> nat {
        self.num_hashes as nat
    }

    pub open spec fn wf(&self) -> bool {
        &&& 0 < self.bitmap().len() <= usize::MAX
        &&& 0 < self.spec_num_hashes() < 0x1_0000_0000
    }

    /// The `j`-th bit position of `item`, by enhanced double hashing over
    /// the digests at salts 1 and 2.
    pub open spec fn position(&self, item: T, j: int) -> int {
        double_hash_value(
            self.hasher().hash_spec(item, 1),
            self.hasher().hash_spec(item, 2),
            self.bitmap().len() as u64,
            j as nat,
        ) as int
    }

    /// An item reads as present when all of its positions are set.
    pub open spec fn contains_spec(&self, item: T) -> bool {
        forall|j: int|
            0 <= j < self.spec_num_hashes() ==> self.bitmap()[#[trigger] self.position(item, j)]
    }

    /// What one insertion does: every position of `item` becomes set, no
    /// other bit changes, and the configuration stays put.
    pub open spec fn insert_effect(pre: Self, post: Self, item: T) -> bool {
        &&& post.bitmap().len() == pre.bitmap().len()
        &&& post.spec_num_hashes() == pre.spec_num_hashes()
        &&& post.hasher() == pre.hasher()
        &&& forall|p: int|
            0 <= p < pre.bitmap().len() ==> post.bitmap()[p] == (pre.bitmap()[p] || exists|j: int|
                0 <= j < pre.spec_num_hashes() && #[trigger] pre.position(item, j) == p)
    }

    pub proof fn lemma_position_in_range(&self, item: T, j: int)
        requires
            self.wf(),
        ensures
            0 <= self.position(item, j) < self.bitmap().len(),
    {
        lemma_double_hash_value_bounded(
            self.hasher().hash_spec(item, 1),
            self.hasher().hash_spec(item, 2),
            self.bitmap().len() as u64,
            j as nat,
        );
    }

    /// A filter of `num_bits` zeroed bits and `num_hashes` positions per
    /// item.
    pub fn new(num_bits: usize, num_hashes: usize, build_hasher: H) -> (r: Self)
        requires
            num_bits > 0,
            0 < num_hashes < 0x1_0000_0000,
        ensures
            r.wf(),
            r.bitmap().len() == num_bits,
            r.spec_num_hashes() == num_hashes,
            r.hasher() == build_hasher,
            forall|p: int| 0 <= p < num_bits ==> !r.bitmap()[p],
    {
        BloomFilter {
            bits: fbs_with_capacity(num_bits),
            num_hashes,
            build_hasher,
            _phantom: PhantomData,
        }
    }

    /// The bitmap size `m`.
    pub fn bits(&self) -> (r: usize)
        ensures
            r == self.bitmap().len(),
    {
        fbs_len(&self.bits)
    }

    /// The number of hashed positions per item.
    pub fn num_hashes(&self) -> (r: usize)
        ensures
            r == self.spec_num_hashes(),
    {
        self.num_hashes
    }

    /// How many bits are currently set.
    pub fn count_ones(&self) -> (r: usize)
        ensures
            r == count_trues(self.bitmap()),
    {
        fbs_count_ones(&self.bits)
    }

    /// True only for a zero-length bitmap, which a well-formed filter
    /// never has.
    pub fn is_empty(&self) -> (r: bool)
        ensures
            r == (self.bitmap().len() == 0),
    {
        fbs_is_empty(&self.bits)
    }

    /// Reset every bit; irreversible.
    pub fn clear(&mut self)
        requires
            old(self).wf(),
        ensures
            final(self).wf(),
            final(self).bitmap().len() == old(self).bitmap().len(),
            final(self).spec_num_hashes() == old(self).spec_num_hashes(),
            final(self).hasher() == old(self).hasher(),
            forall|p: int| 0 <= p < final(self).bitmap().len() ==> !final(self).bitmap()[p],
    {
        fbs_clear(&mut self.bits)
    }

    /// Whether every hashed position of `item` is set: true for every
    /// inserted item, and occasionally for others.
    pub fn contains(&self, item: &T) -> (r: bool)
        requires
            self.wf(),
        ensures
            r == self.contains_spec(*item),
    {
        let m = fbs_len(&self.bits);
        let hashes = next_k(item, &self.build_hasher, m as u64, self.num_hashes);
        let mut j: usize = 0;
        while j < self.num_hashes
            invariant
                self.wf(),
                m == self.bitmap().len(),
                j <= self.spec_num_hashes(),
                hashes@.len() == self.spec_num_hashes(),
                forall|t: int|
                    0 <= t < self.spec_num_hashes() ==> hashes@[t] == self.position(*item, t),
                forall|t: int| 0 <= t < j ==> self.bitmap()[#[trigger] self.position(*item, t)],
            decreases self.spec_num_hashes() - j,
        {
            proof {
                self.lemma_position_in_range(*item, j as int);
            }
            let p = hashes[j] as usize;
            if !fbs_contains(&self.bits, p) {
                return false;
            }
            j += 1;
        }
        true
    }

    /// Set every hashed position of `item`.  Returns whether at least one
    /// of them was previously unset: a novelty guess, not authoritative.
    pub fn insert(&mut self, item: &T) -> (r: bool)
        requires
            old(self).wf(),
        ensures
            final(self).wf(),
            Self::insert_effect(*old(self), *final(self), *item),
            r == !old(self).contains_spec(*item),
    {
        let m = fbs_len(&self.bits);
        let hashes = next_k(item, &self.build_hasher, m as u64, self.num_hashes);
        let mut all_prev_set = true;
        let mut j: usize = 0;
        while j < self.num_hashes
            invariant
                self.wf(),
                self.num_hashes == old(self).num_hashes,
                self.build_hasher == old(self).build_hasher,
                m == self.bitmap().len(),
                self.bitmap().len() == old(self).bitmap().len(),
                j <= self.spec_num_hashes(),
                hashes@.len() == self.spec_num_hashes(),
                forall|t: int|
                    0 <= t < self.spec_num_hashes() ==> hashes@[t] == old(self).position(*item, t),
                forall|p: int|
                    0 <= p < old(self).bitmap().len() ==> self.bitmap()[p] == (old(
                        self,
                    ).bitmap()[p] || exists|t: int|
                        0 <= t < j && #[trigger] old(self).position(*item, t) == p),
                all_prev_set == (forall|t: int|
                    0 <= t < j ==> old(self).bitmap()[#[trigger] old(self).position(*item, t)]),
            decreases self.spec_num_hashes() - j,
        {
            proof {
                old(self).lemma_position_in_range(*item, j as int);
            }
            let p = hashes[j] as usize;
            let ghost pre_loop = *self;
            let prev = fbs_put(&mut self.bits, p);
            proof {
                let pj = old(self).position(*item, j as int);
                assert(prev == pre_loop.bitmap()[pj]);
                if all_prev_set {
                    if exists|t: int| 0 <= t < j && #[trigger] old(self).position(*item, t) == pj {
                        let t = choose|t: int|
                            0 <= t < j && #[trigger] old(self).position(*item, t) == pj;
                        assert(old(self).bitmap()[pj]);
                    }
                    assert(prev == old(self).bitmap()[pj]);
                }
                assert forall|p2: int| 0 <= p2 < old(self).bitmap().len() implies self.bitmap()[p2]
                    == (old(self).bitmap()[p2] || exists|t: int|
                    0 <= t < j + 1 && #[trigger] old(self).position(*item, t) == p2) by {
                    if p2 == pj {
                        assert(self.bitmap()[p2]);
                        assert(old(self).position(*item, j as int) == p2);
                    } else {
                        assert(self.bitmap()[p2] == pre_loop.bitmap()[p2]);
                    }
                }
            }
            all_prev_set = all_prev_set && prev;
            j += 1;
        }
        !all_prev_set
    }

    /// No false negatives, part one: immediately after inserting `item`,
    /// a membership test for `item` succeeds.
    pub proof fn lemma_no_false_negative_insert(pre: Self, post: Self, item: T)
        requires
            pre.wf(),
            Self::insert_effect(pre, post, item),
        ensures
            post.contains_spec(item),
    {
        assert forall|j: int| 0 <= j < post.spec_num_hashes() implies post.bitmap()[
        #[trigger] post.position(item, j)] by {
            pre.lemma_position_in_range(item, j);
            assert(post.position(item, j) == pre.position(item, j));
            assert(pre.position(item, j) == pre.position(item, j));
        }
    }

    /// No false negatives, part two: once an item tests positive, any
    /// number of further insertions (of any items) keeps it positive.
    pub proof fn lemma_contains_preserved(pre: Self, post: Self, item: T, other: T)
        requires
            pre.wf(),
            pre.contains_spec(item),
            Self::insert_effect(pre, post, other),
        ensures
            post.contains_spec(item),
    {
        assert forall|j: int| 0 <= j < post.spec_num_hashes() implies post.bitmap()[
        #[trigger] post.position(item, j)] by {
            pre.lemma_position_in_range(item, j);
            assert(pre.bitmap()[pre.position(item, j)]);
            assert(post.position(item, j) == pre.position(item, j));
        }
    }
}

} // verus!
