//! Cuckoo filter: set membership through fingerprints in a two-choice
//! table.
//!
//! Each item maps to a short nonzero fingerprint and a primary bucket;
//! the alternate bucket is the primary xor-mixed with the fingerprint,
//! which makes the mapping self-inverse.  An insertion that finds both
//! buckets full relocates existing fingerprints along a bounded chain;
//! if the bound is hit, the whole chain is rolled back and a typed
//! capacity error is returned, so a failed insertion never loses a
//! previously stored fingerprint.

use vstd::prelude::*;

verus! {

use core::marker::PhantomData;
use vstd::bits::low_bits_mask;
use crate::bit_vec::BitVec;
use crate::bit_vec::lemma_mask_noop;
use crate::hash::BuildHash;
use crate::random::RandomSource;
use crate::set_membership::SetMembership;
use vstd::wrapping::usize_specs;

/// Relocation bound for one insertion: reaching it turns a potentially
/// endless chain into a typed failure.
const MAX_EVICTIONS: u32 = 500;

/// The capacity error: the relocation bound was reached.
#[derive(Debug, Clone)]
pub struct NotEnoughSpace;

/// Whether `tag` sits in some slot of bucket `b`.
pub open spec fn bucket_has(slots: Seq<u32>, bs: int, b: int, tag: u32) -> bool {
    exists|e: int| 0 <= e < bs && #[trigger] slots[b * bs + e] == tag
}

/// The partner bucket of `b` for fingerprint `tag`: xor with a mixed
/// multiple of the tag, masked to the bucket count.
pub open spec fn alt_bucket(nb: usize, b: int, tag: u32) -> int {
    (((b as usize) ^ usize_specs::wrapping_mul(tag as usize, 0x5bd1_e995)) & ((nb - 1) as usize)) as int
}

/// Whether `tag` is reachable from the bucket pair of `b`.
pub open spec fn findable_in(slots: Seq<u32>, nb: usize, bs: int, b: int, tag: u32) -> bool {
    bucket_has(slots, bs, b, tag) || bucket_has(slots, bs, alt_bucket(nb, b, tag), tag)
}

/// The table obtained by undoing a log of single-slot writes, newest
/// first.
pub open spec fn unwind(slots: Seq<u32>, log: Seq<(usize, u32)>) -> Seq<u32>
    decreases log.len(),
{
    if log.len() == 0 {
        slots
    } else {
        let last = log.last();
        unwind(slots.update(last.0 as int, last.1), log.drop_last())
    }
}

/// One single-slot write changes presence only for the overwritten value,
/// and only in the written bucket.
proof fn lemma_update_bucket_effect(
    pre: Seq<u32>,
    post: Seq<u32>,
    nb: usize,
    bs: int,
    b: int,
    e: int,
    newv: u32,
)
    requires
        bs > 0,
        0 <= b < nb,
        0 <= e < bs,
        pre.len() == nb * bs,
        post == pre.update(b * bs + e, newv),
    ensures
        bucket_has(post, bs, b, newv),
        forall|b2: int, t: u32|
            0 <= b2 < nb && #[trigger] bucket_has(pre, bs, b2, t) ==> bucket_has(post, bs, b2, t)
                || (t == pre[b * bs + e] && b2 == b),
        forall|b2: int, t: u32|
            0 <= b2 < nb && #[trigger] bucket_has(pre, bs, b2, t) && t != pre[b * bs + e]
                ==> bucket_has(post, bs, b2, t),
{
    assert(0 <= b * bs + e < nb * bs) by (nonlinear_arith)
        requires
            bs > 0,
            0 <= b < nb,
            0 <= e < bs,
    ;
    assert(post[b * bs + e] == newv);
    assert(bucket_has(post, bs, b, newv));
    assert forall|b2: int, t: u32|
        0 <= b2 < nb && #[trigger] bucket_has(pre, bs, b2, t) implies bucket_has(post, bs, b2, t)
        || (t == pre[b * bs + e] && b2 == b) by {
        let e2 = choose|e2: int| 0 <= e2 < bs && #[trigger] pre[b2 * bs + e2] == t;
        assert(0 <= b2 * bs + e2 < nb * bs) by (nonlinear_arith)
            requires
                bs > 0,
                0 <= b2 < nb,
                0 <= e2 < bs,
        ;
        if b2 * bs + e2 == b * bs + e {
            assert(b2 == b && e2 == e) by (nonlinear_arith)
                requires
                    bs > 0,
                    0 <= e < bs,
                    0 <= e2 < bs,
                    b2 * bs + e2 == b * bs + e,
            ;
        } else {
            assert(post[b2 * bs + e2] == t);
            assert(bucket_has(post, bs, b2, t));
        }
    }
}

/// Probabilistic set membership via fingerprints, two-choice hashing and
/// bounded relocation chains.
pub struct CuckooFilter<T, const FINGERPRINT_SIZE: usize, H, R> {
    table: BitVec<FINGERPRINT_SIZE>,
    num_buckets: usize,
    bucket_size: usize,
    build_hasher: H,
    rng: R,
    _phantom: PhantomData<T>,
}

impl<T, const FINGERPRINT_SIZE: usize, H: BuildHash<T>, R: RandomSource> CuckooFilter<
    T,
    FINGERPRINT_SIZE,
    H,
    R,
> {
    /// The fingerprint slots, bucket by bucket.
    pub closed spec fn slots(&self) -> Seq<u32> {
        self.table@
    }

    pub closed spec fn spec_num_buckets(&self) -> usize {
        self.num_buckets
    }

    pub closed spec fn spec_bucket_size(&self) -> usize {
        self.bucket_size
    }

    pub closed spec fn hasher(&self) -> H {
        self.build_hasher
    }

    pub closed spec fn table_wf(&self) -> bool {
        self.table.wf()
    }

    pub open spec fn wf(&self) -> bool {
        &&& 0 < FINGERPRINT_SIZE <= 32
        &&& self.table_wf()
        &&& self.slots().len() == self.spec_num_buckets() * self.spec_bucket_size()
        &&& self.slots().len() <= usize::MAX
        &&& self.spec_num_buckets() > 1
        &&& (self.spec_num_buckets() & ((self.spec_num_buckets() - 1) as usize)) == 0
        &&& self.spec_bucket_size() > 0
    }

    /// The fingerprint of `item`: its low hash bits, coerced nonzero.
    pub open spec fn spec_tag(&self, item: T) -> u32 {
        let raw = (self.hasher().hash_spec(item, 0) as u32) & (low_bits_mask(
            FINGERPRINT_SIZE as nat,
        ) as u32);
        if raw == 0 {
            1u32
        } else {
            raw
        }
    }

    /// The primary bucket of `item`: its high hash bits, masked.
    pub open spec fn spec_index1(&self, item: T) -> int {
        (((self.hasher().hash_spec(item, 0) >> 32) as usize) & ((self.spec_num_buckets()
            - 1) as usize)) as int
    }

    /// An item reads as present when its fingerprint sits in either of
    /// its two candidate buckets.
    pub open spec fn contains_spec(&self, item: T) -> bool {
        findable_in(
            self.slots(),
            self.spec_num_buckets(),
            self.spec_bucket_size() as int,
            self.spec_index1(item),
            self.spec_tag(item),
        )
    }

    /// The configuration shared by two states of one filter.
    pub open spec fn same_config(pre: Self, post: Self) -> bool {
        &&& post.spec_num_buckets() == pre.spec_num_buckets()
        &&& post.spec_bucket_size() == pre.spec_bucket_size()
        &&& post.hasher() == pre.hasher()
        &&& post.slots().len() == pre.slots().len()
    }

    /// Every fingerprint findable from its bucket pair before an
    /// operation is still findable after it.
    pub open spec fn preserves_findable(pre: Self, post: Self) -> bool {
        forall|b: int, t: u32|
            0 <= b < pre.spec_num_buckets() && t != 0 && #[trigger] findable_in(
                pre.slots(),
                pre.spec_num_buckets(),
                pre.spec_bucket_size() as int,
                b,
                t,
            ) ==> findable_in(
                post.slots(),
                post.spec_num_buckets(),
                post.spec_bucket_size() as int,
                b,
                t,
            )
    }

    pub proof fn lemma_index1_bounds(&self, item: T)
        requires
            self.wf(),
        ensures
            0 <= self.spec_index1(item) < self.spec_num_buckets(),
    {
        let x = (self.hasher().hash_spec(item, 0) >> 32) as usize;
        let m = (self.spec_num_buckets() - 1) as usize;
        assert(x & m <= m) by (bit_vector);
    }

    pub proof fn lemma_alt_bounds(&self, b: int, tag: u32)
        requires
            self.wf(),
        ensures
            0 <= alt_bucket(self.spec_num_buckets(), b, tag) < self.spec_num_buckets(),
    {
        let x = (b as usize) ^ usize_specs::wrapping_mul(tag as usize, 0x5bd1_e995);
        let m = (self.spec_num_buckets() - 1) as usize;
        assert(x & m <= m) by (bit_vector);
    }

    /// The alternate-bucket mapping is self-inverse on valid buckets.
    pub proof fn lemma_alt_involution(&self, b: int, tag: u32)
        requires
            self.wf(),
            0 <= b < self.spec_num_buckets(),
        ensures
            alt_bucket(self.spec_num_buckets(), alt_bucket(self.spec_num_buckets(), b, tag), tag)
                == b,
    {
        let i = b as usize;
        let v = usize_specs::wrapping_mul(tag as usize, 0x5bd1_e995);
        let n = self.spec_num_buckets();
        let m = (n - 1) as usize;
        assert((((i ^ v) & m) ^ v) & m == i) by (bit_vector)
            requires
                i < n,
                m == (n - 1) as usize,
                n & m == 0,
                n > 1,
        ;
    }

    pub proof fn lemma_tag_fits(&self, item: T)
        requires
            self.wf(),
        ensures
            self.spec_tag(item) != 0,
            self.spec_tag(item) <= low_bits_mask(FINGERPRINT_SIZE as nat),
    {
        let x = self.hasher().hash_spec(item, 0) as u32;
        let m = low_bits_mask(FINGERPRINT_SIZE as nat) as u32;
        assert(x & m <= m) by (bit_vector);
        assert(low_bits_mask(FINGERPRINT_SIZE as nat) >= 1) by {
            vstd::arithmetic::power2::lemma2_to64();
            if FINGERPRINT_SIZE > 1 {
                vstd::arithmetic::power2::lemma_pow2_strictly_increases(
                    1,
                    FINGERPRINT_SIZE as nat,
                );
            }
        }
    }

    /// Every slot of a well-formed table fits the fingerprint width.
    proof fn lemma_slots_bounded(&self)
        requires
            self.wf(),
        ensures
            forall|i: int|
                0 <= i < self.slots().len() ==> #[trigger] self.slots()[i] <= low_bits_mask(
                    FINGERPRINT_SIZE as nat,
                ),
    {
        self.table.lemma_view_bounded();
    }

    proof fn lemma_addr_bounds(&self, b: int, e: int)
        requires
            self.wf(),
            0 <= b < self.spec_num_buckets(),
            0 <= e < self.spec_bucket_size(),
        ensures
            0 <= b * self.spec_bucket_size() + e < self.slots().len(),
    {
        let nb = self.spec_num_buckets() as int;
        let bs = self.spec_bucket_size() as int;
        assert(0 <= b * bs + e < nb * bs) by (nonlinear_arith)
            requires
                bs > 0,
                0 <= b < nb,
                0 <= e < bs,
        ;
    }

    /// A filter of `num_buckets` buckets (a power of two) holding
    /// `bucket_size` fingerprints each, all slots empty.
    pub fn new(num_buckets: usize, bucket_size: usize, build_hasher: H, rng: R) -> (r: Self)
        requires
            num_buckets > 1,
            (num_buckets & ((num_buckets - 1) as usize)) == 0,
            bucket_size > 0,
            0 < FINGERPRINT_SIZE <= 32,
            FINGERPRINT_SIZE * (num_buckets * bucket_size) + 15 <= usize::MAX,
            num_buckets * bucket_size <= usize::MAX,
        ensures
            r.wf(),
            r.spec_num_buckets() == num_buckets,
            r.spec_bucket_size() == bucket_size,
            r.hasher() == build_hasher,
            forall|i: int| 0 <= i < r.slots().len() ==> r.slots()[i] == 0,
    {
        proof {
            assert(num_buckets * bucket_size > 0) by (nonlinear_arith)
                requires
                    num_buckets > 1,
                    bucket_size > 0,
            ;
        }
        let size = num_buckets * bucket_size;
        CuckooFilter {
            table: BitVec::<FINGERPRINT_SIZE>::new(size),
            num_buckets,
            bucket_size,
            build_hasher,
            rng,
            _phantom: PhantomData,
        }
    }

    /// The primary bucket and the nonzero fingerprint of `item`.
    fn index_and_tag(&self, item: &T) -> (r: (usize, u32))
        requires
            self.wf(),
        ensures
            r.0 == self.spec_index1(*item),
            r.1 == self.spec_tag(*item),
            r.0 < self.spec_num_buckets(),
            r.1 != 0,
            r.1 <= low_bits_mask(FINGERPRINT_SIZE as nat),
    {
        let hash = self.build_hasher.hash(item, 0);
        let index = ((hash >> 32) as usize) & (self.num_buckets - 1);
        let mask = BitVec::<FINGERPRINT_SIZE>::lsb_mask();
        let raw = (#[verifier::truncate] (hash as u32)) & mask;
        let tag = if raw == 0 {
            1
        } else {
            raw
        };
        proof {
            self.lemma_index1_bounds(*item);
            self.lemma_tag_fits(*item);
        }
        (index, tag)
    }

    /// The partner bucket of `index` for fingerprint `tag`.
    fn alt_index(&self, index: usize, tag: u32) -> (r: usize)
        requires
            self.wf(),
        ensures
            r == alt_bucket(self.spec_num_buckets(), index as int, tag),
            r < self.spec_num_buckets(),
    {
        proof {
            self.lemma_alt_bounds(index as int, tag);
        }
        (index ^ (tag as usize).wrapping_mul(0x5bd1_e995)) & (self.num_buckets - 1)
    }

    /// Whether `tag` occupies some slot of bucket `b`.
    fn bucket_contains(&self, b: usize, tag: u32) -> (r: bool)
        requires
            self.wf(),
            b < self.spec_num_buckets(),
        ensures
            r == bucket_has(self.slots(), self.spec_bucket_size() as int, b as int, tag),
    {
        let bs = self.bucket_size;
        let mut e: usize = 0;
        while e < bs
            invariant
                self.wf(),
                bs == self.spec_bucket_size(),
                b < self.spec_num_buckets(),
                e <= bs,
                forall|e2: int| 0 <= e2 < e ==> #[trigger] self.slots()[b * bs + e2] != tag,
            decreases bs - e,
        {
            proof {
                self.lemma_addr_bounds(b as int, e as int);
            }
            let addr = b * bs + e;
            if self.table.get(addr) == tag {
                proof {
                    assert(self.slots()[b as int * bs as int + e as int] == tag);
                }
                return true;
            }
            e += 1;
        }
        false
    }

    /// Whether `tag` occupies a slot of bucket `i1` or bucket `i2`.
    fn contains_hashed(&self, i1: usize, i2: usize, tag: u32) -> (r: bool)
        requires
            self.wf(),
            i1 < self.spec_num_buckets(),
            i2 < self.spec_num_buckets(),
        ensures
            r == (bucket_has(self.slots(), self.spec_bucket_size() as int, i1 as int, tag)
                || bucket_has(self.slots(), self.spec_bucket_size() as int, i2 as int, tag)),
    {
        self.bucket_contains(i1, tag) || self.bucket_contains(i2, tag)
    }

    /// Place `tag` in the first free slot of bucket `index`, if any.
    fn try_insert(&mut self, index: usize, tag: u32) -> (r: Result<(), ()>)
        requires
            old(self).wf(),
            index < old(self).spec_num_buckets(),
            tag <= low_bits_mask(FINGERPRINT_SIZE as nat),
        ensures
            final(self).wf(),
            Self::same_config(*old(self), *final(self)),
            final(self).rng == old(self).rng,
            r.is_ok() == exists|e: int|
                0 <= e < old(self).spec_bucket_size() && #[trigger] old(self).slots()[index as int
                    * old(self).spec_bucket_size() + e] == 0,
            r.is_ok() ==> exists|e: int|
                0 <= e < old(self).spec_bucket_size() && #[trigger] old(self).slots()[index as int
                    * old(self).spec_bucket_size() + e] == 0 && final(self).slots() == old(
                    self,
                ).slots().update(index as int * old(self).spec_bucket_size() + e, tag),
            r.is_err() ==> *final(self) == *old(self),
    {
        let bs = self.bucket_size;
        let mut e: usize = 0;
        while e < bs
            invariant
                self.wf(),
                *self == *old(self),
                bs == self.spec_bucket_size(),
                index < self.spec_num_buckets(),
                tag <= low_bits_mask(FINGERPRINT_SIZE as nat),
                e <= bs,
                forall|e2: int| 0 <= e2 < e ==> #[trigger] self.slots()[index as int * bs + e2] != 0,
            decreases bs - e,
        {
            proof {
                self.lemma_addr_bounds(index as int, e as int);
            }
            let addr = index * bs + e;
            if self.table.get(addr) == 0 {
                proof {
                    lemma_mask_noop(tag, FINGERPRINT_SIZE as nat);
                }
                self.table.set(addr, tag);
                return Ok(());
            }
            e += 1;
        }
        Err(())
    }

    /// Place `tag` in bucket `index`: into a free slot if one exists,
    /// otherwise by evicting a randomly chosen occupant, returning the
    /// evicted slot and fingerprint.
    fn maybe_evict_and_insert(&mut self, index: usize, tag: u32) -> (r: Option<(usize, u32)>)
        requires
            old(self).wf(),
            index < old(self).spec_num_buckets(),
            tag <= low_bits_mask(FINGERPRINT_SIZE as nat),
        ensures
            final(self).wf(),
            Self::same_config(*old(self), *final(self)),
            final(self).build_hasher == old(self).build_hasher,
            r.is_none() ==> exists|e: int|
                0 <= e < old(self).spec_bucket_size() && #[trigger] old(self).slots()[index as int
                    * old(self).spec_bucket_size() + e] == 0 && final(self).slots() == old(
                    self,
                ).slots().update(index as int * old(self).spec_bucket_size() + e, tag),
            r matches Some(ao) ==> ao.0 < old(self).slots().len() && index * old(
                self,
            ).spec_bucket_size() <= ao.0 && ao.0 < index * old(self).spec_bucket_size() + old(
                self,
            ).spec_bucket_size() && ao.1 == old(self).slots()[ao.0 as int] && ao.1 != 0 && ao.1
                <= low_bits_mask(FINGERPRINT_SIZE as nat) && final(self).slots() == old(
                self,
            ).slots().update(ao.0 as int, tag),
            r.is_some() ==> !(exists|e: int|
                0 <= e < old(self).spec_bucket_size() && #[trigger] old(self).slots()[index as int
                    * old(self).spec_bucket_size() + e] == 0),
    {
        match self.try_insert(index, tag) {
            Ok(_) => None,
            Err(_) => {
                let e = self.rng.random_index(self.bucket_size);
                proof {
                    self.lemma_addr_bounds(index as int, e as int);
                    self.lemma_slots_bounded();
                }
                let addr = index * self.bucket_size + e;
                let old_tag = self.table.get(addr);
                proof {
                    lemma_mask_noop(tag, FINGERPRINT_SIZE as nat);
                }
                self.table.set(addr, tag);
                Some((addr, old_tag))
            },
        }
    }

    /// Whether `item`'s fingerprint sits in either of its two candidate
    /// buckets.  Never false for an item whose insertion succeeded, even
    /// after later insertions.
    pub fn contains(&self, item: &T) -> (r: bool)
        requires
            self.wf(),
        ensures
            r == self.contains_spec(*item),
    {
        let (i1, tag) = self.index_and_tag(item);
        let i2 = self.alt_index(i1, tag);
        self.contains_hashed(i1, i2, tag)
    }

    /// Insert `item`'s fingerprint.  An already-present fingerprint is a
    /// no-op success; a full pair of buckets starts a relocation chain,
    /// rolled back in full if the eviction bound is reached.
    pub fn insert(&mut self, item: &T) -> (r: Result<(), NotEnoughSpace>)
        requires
            old(self).wf(),
        ensures
            final(self).wf(),
            Self::same_config(*old(self), *final(self)),
            Self::preserves_findable(*old(self), *final(self)),
            r.is_ok() ==> final(self).contains_spec(*item),
            r.is_err() ==> final(self).slots() == old(self).slots(),
            old(self).contains_spec(*item) ==> r.is_ok() && final(self).slots() == old(
                self,
            ).slots(),
            (exists|e: int|
                0 <= e < old(self).spec_bucket_size() && #[trigger] old(self).slots()[old(
                    self,
                ).spec_index1(*item) * old(self).spec_bucket_size() + e] == 0) ==> r.is_ok(),
            (exists|e: int|
                0 <= e < old(self).spec_bucket_size() && #[trigger] old(self).slots()[alt_bucket(
                    old(self).spec_num_buckets(),
                    old(self).spec_index1(*item),
                    old(self).spec_tag(*item),
                ) * old(self).spec_bucket_size() + e] == 0) ==> r.is_ok(),
    {
        let ghost orig = *self;
        let ghost nb = self.num_buckets;
        let ghost bs = self.bucket_size as int;
        let (i1, tag) = self.index_and_tag(item);
        let i2 = self.alt_index(i1, tag);
        if self.contains_hashed(i1, i2, tag) {
            return Ok(());
        }
        match self.try_insert(i1, tag) {
            Ok(_) => {
                proof {
                    self.lemma_insert_step_preserves(orig, i1 as int, tag);
                    assert(self.spec_tag(*item) == tag);
                    assert(self.spec_index1(*item) == i1 as int);
                    assert(findable_in(
                        self.slots(),
                        self.spec_num_buckets(),
                        self.spec_bucket_size() as int,
                        i1 as int,
                        tag,
                    ));
                }
                return Ok(());
            },
            Err(_) => {},
        }
        let mut cur = tag;
        let mut index = i1;
        let mut undo: Vec<(usize, u32)> = Vec::new();
        let mut n: u32 = 0;
        while n < MAX_EVICTIONS
            invariant
                self.wf(),
                self.num_buckets == orig.num_buckets,
                self.bucket_size == orig.bucket_size,
                self.build_hasher == orig.build_hasher,
                self.slots().len() == orig.slots().len(),
                orig.wf(),
                orig == *old(self),
                !orig.contains_spec(*item),
                !(exists|e: int|
                    0 <= e < bs && #[trigger] orig.slots()[orig.spec_index1(*item) * bs + e] == 0),
                nb == orig.num_buckets,
                bs == orig.bucket_size as int,
                i1 < nb,
                tag != 0,
                tag <= low_bits_mask(FINGERPRINT_SIZE as nat),
                tag == orig.spec_tag(*item),
                i1 as int == orig.spec_index1(*item),
                cur != 0,
                cur <= low_bits_mask(FINGERPRINT_SIZE as nat),
                index < nb,
                n == 0 ==> cur == tag && index == i1 && self.slots() == orig.slots(),
                n > 0 ==> !(exists|e: int|
                    0 <= e < bs && #[trigger] orig.slots()[alt_bucket(nb, i1 as int, tag) * bs
                        + e] == 0),
                forall|q: int|
                    0 <= q < undo@.len() ==> (#[trigger] undo@[q]).0 < orig.slots().len()
                        && undo@[q].1 <= low_bits_mask(FINGERPRINT_SIZE as nat),
                unwind(self.slots(), undo@) == orig.slots(),
                forall|b: int, t: u32|
                    0 <= b < nb && t != 0 && #[trigger] findable_in(orig.slots(), nb, bs, b, t)
                        ==> findable_in(self.slots(), nb, bs, b, t) || (t == cur && (b == index
                        || alt_bucket(nb, b, t) == index)),
                findable_in(self.slots(), nb, bs, i1 as int, tag) || (cur == tag && (i1 as int
                    == index || alt_bucket(nb, i1 as int, tag) == index)),
            decreases MAX_EVICTIONS - n,
        {
            let ghost pre = *self;
            let next_index = self.alt_index(index, cur);
            let ghost prev_index = index;
            index = next_index;
            match self.maybe_evict_and_insert(index, cur) {
                None => {
                    proof {
                        assert(findable_in(pre.slots(), nb, bs, i1 as int, tag) || (tag == cur && (
                        i1 as int == prev_index as int || alt_bucket(nb, i1 as int, tag)
                            == prev_index as int)));
                        self.lemma_evict_step(
                            pre,
                            nb,
                            bs,
                            prev_index as int,
                            index as int,
                            cur,
                            0,
                            i1 as int,
                            tag,
                        );
                        assert(findable_in(self.slots(), nb, bs, i1 as int, tag));
                        assert(self.spec_tag(*item) == tag);
                        assert(self.spec_index1(*item) == i1 as int);
                        assert(findable_in(
                            self.slots(),
                            self.spec_num_buckets(),
                            self.spec_bucket_size() as int,
                            i1 as int,
                            tag,
                        ));
                        assert forall|b: int, t: u32|
                            0 <= b < orig.spec_num_buckets() && t != 0 && #[trigger] findable_in(
                                orig.slots(),
                                orig.spec_num_buckets(),
                                orig.spec_bucket_size() as int,
                                b,
                                t,
                            ) implies findable_in(
                            self.slots(),
                            self.spec_num_buckets(),
                            self.spec_bucket_size() as int,
                            b,
                            t,
                        ) by {
                            assert(findable_in(orig.slots(), nb, bs, b, t));
                            assert(findable_in(pre.slots(), nb, bs, b, t) || (t == cur && (b
                                == prev_index as int || alt_bucket(nb, b, t)
                                == prev_index as int)));
                            self.lemma_evict_step(
                                pre,
                                nb,
                                bs,
                                prev_index as int,
                                index as int,
                                cur,
                                0,
                                b,
                                t,
                            );
                            assert(findable_in(self.slots(), nb, bs, b, t));
                        }
                        assert(Self::preserves_findable(orig, *self));
                    }
                    return Ok(());
                },
                Some(ao) => {
                    let (addr, old_tag) = ao;
                    let ghost undo_pre = undo@;
                    undo.push((addr, old_tag));
                    proof {
                        let ee = addr as int - index as int * bs;
                        assert(0 <= ee < bs);
                        assert(pre.slots()[index as int * bs + ee] == old_tag);
                        assert(self.slots() == pre.slots().update(index as int * bs + ee, cur));
                        assert(findable_in(pre.slots(), nb, bs, i1 as int, tag) || (tag == cur && (
                        i1 as int == prev_index as int || alt_bucket(nb, i1 as int, tag)
                            == prev_index as int)));
                        self.lemma_evict_step(
                            pre,
                            nb,
                            bs,
                            prev_index as int,
                            index as int,
                            cur,
                            old_tag,
                            i1 as int,
                            tag,
                        );
                        assert(findable_in(self.slots(), nb, bs, i1 as int, tag) || (tag == old_tag
                            && (i1 as int == index as int || alt_bucket(nb, i1 as int, tag)
                            == index as int)));
                        assert forall|b: int, t: u32|
                            0 <= b < nb && t != 0 && #[trigger] findable_in(
                                orig.slots(),
                                nb,
                                bs,
                                b,
                                t,
                            ) implies findable_in(self.slots(), nb, bs, b, t) || (t == old_tag && (b
                            == index as int || alt_bucket(nb, b, t) == index as int)) by {
                            assert(findable_in(pre.slots(), nb, bs, b, t) || (t == cur && (b
                                == prev_index as int || alt_bucket(nb, b, t)
                                == prev_index as int)));
                            self.lemma_evict_step(
                                pre,
                                nb,
                                bs,
                                prev_index as int,
                                index as int,
                                cur,
                                old_tag,
                                b,
                                t,
                            );
                        }
                        assert(undo@.last() == (addr, old_tag));
                        assert(undo@.drop_last() =~= undo_pre);
                        assert(unwind(self.slots(), undo@) == unwind(
                            self.slots().update(addr as int, old_tag),
                            undo_pre,
                        ));
                        assert(self.slots().update(addr as int, old_tag) =~= pre.slots());
                        assert(unwind(self.slots(), undo@) == orig.slots());
                        if n == 0 {
                            assert(index as int == alt_bucket(nb, i1 as int, tag));
                            assert(pre.slots() == orig.slots());
                            assert forall|e: int| 0 <= e < bs implies #[trigger] orig.slots()[
                            alt_bucket(nb, i1 as int, tag) * bs + e] != 0 by {
                                assert(pre.slots()[index as int * (
                                pre.spec_bucket_size() as int) + e] != 0);
                                assert(orig.slots()[alt_bucket(nb, i1 as int, tag) * bs + e]
                                    == pre.slots()[index as int * (
                                pre.spec_bucket_size() as int) + e]);
                            }
                        }
                    }
                    cur = old_tag;
                },
            }
            n += 1;
        }
        while undo.len() > 0
            invariant
                self.wf(),
                self.num_buckets == orig.num_buckets,
                self.bucket_size == orig.bucket_size,
                self.build_hasher == orig.build_hasher,
                self.slots().len() == orig.slots().len(),
                orig.wf(),
                orig == *old(self),
                !orig.contains_spec(*item),
                !(exists|e: int|
                    0 <= e < orig.spec_bucket_size() as int && #[trigger] orig.slots()[orig.spec_index1(*item) * orig.spec_bucket_size() + e] == 0),
                nb == orig.num_buckets,
                bs == orig.bucket_size as int,
                i1 as int == orig.spec_index1(*item),
                tag == orig.spec_tag(*item),
                !(exists|e: int|
                    0 <= e < bs && #[trigger] orig.slots()[alt_bucket(nb, i1 as int, tag) * bs
                        + e] == 0),
                forall|q: int|
                    0 <= q < undo@.len() ==> (#[trigger] undo@[q]).0 < orig.slots().len()
                        && undo@[q].1 <= low_bits_mask(FINGERPRINT_SIZE as nat),
                unwind(self.slots(), undo@) == orig.slots(),
            decreases undo.len(),
        {
            let ghost undo_pre = undo@;
            let entry = undo.pop();
            match entry {
                Some(av) => {
                    proof {
                        lemma_mask_noop(av.1, FINGERPRINT_SIZE as nat);
                        assert(undo_pre.last() == av);
                        assert(undo_pre.drop_last() =~= undo@);
                    }
                    self.table.set(av.0, av.1);
                    proof {
                        assert(unwind(self.slots(), undo@) == orig.slots());
                    }
                },
                None => {},
            }
        }
        proof {
            assert(self.slots() == orig.slots());
            assert(!(exists|e: int|
                0 <= e < old(self).spec_bucket_size() && #[trigger] old(self).slots()[alt_bucket(
                    old(self).spec_num_buckets(),
                    old(self).spec_index1(*item),
                    old(self).spec_tag(*item),
                ) * old(self).spec_bucket_size() + e] == 0)) by {
                if exists|e: int|
                    0 <= e < old(self).spec_bucket_size() && #[trigger] old(self).slots()[
                    alt_bucket(
                        old(self).spec_num_buckets(),
                        old(self).spec_index1(*item),
                        old(self).spec_tag(*item),
                    ) * old(self).spec_bucket_size() + e] == 0 {
                    let e = choose|e: int|
                        0 <= e < old(self).spec_bucket_size() && #[trigger] old(self).slots()[
                        alt_bucket(
                            old(self).spec_num_buckets(),
                            old(self).spec_index1(*item),
                            old(self).spec_tag(*item),
                        ) * old(self).spec_bucket_size() + e] == 0;
                    assert(alt_bucket(nb, i1 as int, tag) == alt_bucket(
                        old(self).spec_num_buckets(),
                        old(self).spec_index1(*item),
                        old(self).spec_tag(*item),
                    ));
                    assert(orig.slots()[alt_bucket(nb, i1 as int, tag) * bs + e] == 0);
                }
            }
            assert forall|b: int, t: u32|
                0 <= b < orig.spec_num_buckets() && t != 0 && #[trigger] findable_in(
                    orig.slots(),
                    orig.spec_num_buckets(),
                    orig.spec_bucket_size() as int,
                    b,
                    t,
                ) implies findable_in(
                self.slots(),
                self.spec_num_buckets(),
                self.spec_bucket_size() as int,
                b,
                t,
            ) by {}
            assert(Self::preserves_findable(orig, *self));
        }
        Err(NotEnoughSpace)
    }

    /// Placing a fingerprint in a free slot disturbs nothing else.
    proof fn lemma_insert_step_preserves(&self, pre: Self, b: int, tag: u32)
        requires
            pre.wf(),
            self.wf(),
            Self::same_config(pre, *self),
            0 <= b < pre.spec_num_buckets(),
            tag != 0,
            exists|e: int|
                0 <= e < pre.spec_bucket_size() && #[trigger] pre.slots()[b * pre.spec_bucket_size()
                    + e] == 0 && self.slots() == pre.slots().update(
                    b * pre.spec_bucket_size() + e,
                    tag,
                ),
        ensures
            Self::preserves_findable(pre, *self),
            bucket_has(self.slots(), self.spec_bucket_size() as int, b, tag),
    {
        let nb = pre.spec_num_buckets();
        let bs = pre.spec_bucket_size() as int;
        let e = choose|e: int|
            0 <= e < pre.spec_bucket_size() && #[trigger] pre.slots()[b * pre.spec_bucket_size()
                + e] == 0 && self.slots() == pre.slots().update(b * pre.spec_bucket_size() + e, tag);
        lemma_update_bucket_effect(pre.slots(), self.slots(), nb, bs, b, e, tag);
        assert forall|b2: int, t: u32|
            0 <= b2 < nb && t != 0 && #[trigger] findable_in(pre.slots(), nb, bs, b2, t)
                implies findable_in(self.slots(), nb, bs, b2, t) by {
            assert(pre.slots()[b * bs + e] == 0);
            if bucket_has(pre.slots(), bs, b2, t) {
                assert(bucket_has(self.slots(), bs, b2, t));
            } else {
                pre.lemma_alt_bounds(b2, t);
                assert(bucket_has(pre.slots(), bs, alt_bucket(nb, b2, t), t));
                assert(bucket_has(self.slots(), bs, alt_bucket(nb, b2, t), t));
            }
        }
        assert forall|b2: int, t: u32|
            0 <= b2 < pre.spec_num_buckets() && t != 0 && #[trigger] findable_in(
                pre.slots(),
                pre.spec_num_buckets(),
                pre.spec_bucket_size() as int,
                b2,
                t,
            ) implies findable_in(
            self.slots(),
            self.spec_num_buckets(),
            self.spec_bucket_size() as int,
            b2,
            t,
        ) by {
            assert(findable_in(pre.slots(), nb, bs, b2, t));
            assert(findable_in(self.slots(), nb, bs, b2, t));
        }
    }

    /// One relocation step, seen from one bucket pair: the moved
    /// fingerprint lands in its partner bucket, and only the evicted
    /// fingerprint loses a slot, in the written bucket.
    proof fn lemma_evict_step(
        &self,
        pre: Self,
        nb: usize,
        bs: int,
        prev_index: int,
        index: int,
        cur: u32,
        evicted: u32,
        b: int,
        t: u32,
    )
        requires
            pre.wf(),
            self.wf(),
            nb == pre.spec_num_buckets(),
            bs == pre.spec_bucket_size() as int,
            Self::same_config(pre, *self),
            cur != 0,
            0 <= prev_index < nb,
            index == alt_bucket(nb, prev_index, cur),
            if evicted == 0 {
                exists|e: int|
                    0 <= e < bs && #[trigger] pre.slots()[index * bs + e] == 0 && self.slots()
                        == pre.slots().update(index * bs + e, cur)
            } else {
                exists|e: int|
                    0 <= e < bs && #[trigger] pre.slots()[index * bs + e] == evicted
                        && self.slots() == pre.slots().update(index * bs + e, cur)
            },
            0 <= b < nb,
            t != 0,
            findable_in(pre.slots(), nb, bs, b, t) || (t == cur && (b == prev_index || alt_bucket(
                nb,
                b,
                t,
            ) == prev_index)),
        ensures
            findable_in(self.slots(), nb, bs, b, t) || (t == evicted && (b == index || alt_bucket(
                nb,
                b,
                t,
            ) == index)),
    {
        let e = if evicted == 0 {
            choose|e: int|
                0 <= e < bs && #[trigger] pre.slots()[index * bs + e] == 0 && self.slots()
                    == pre.slots().update(index * bs + e, cur)
        } else {
            choose|e: int|
                0 <= e < bs && #[trigger] pre.slots()[index * bs + e] == evicted && self.slots()
                    == pre.slots().update(index * bs + e, cur)
        };
        pre.lemma_alt_bounds(prev_index, cur);
        let overwritten = pre.slots()[index * bs + e];
        assert(overwritten == evicted || (evicted == 0 && overwritten == 0));
        lemma_update_bucket_effect(pre.slots(), self.slots(), nb, bs, index, e, cur);
        assert(bucket_has(self.slots(), bs, index, cur));
        pre.lemma_alt_bounds(b, t);
        let altb = alt_bucket(nb, b, t);
        if t == cur && (b == prev_index || altb == prev_index) {
            // the moved fingerprint now sits in `index`, a bucket of the
            // pair of `b`
            if b == prev_index {
                assert(altb == index);
            } else {
                pre.lemma_alt_involution(b, t);
                assert(index == alt_bucket(nb, altb, t));
                assert(index == b);
            }
            assert(findable_in(self.slots(), nb, bs, b, t));
        } else {
            assert(findable_in(pre.slots(), nb, bs, b, t));
            if bucket_has(pre.slots(), bs, b, t) {
                if t != overwritten || b != index {
                    assert(bucket_has(self.slots(), bs, b, t));
                } else {
                    assert(t == evicted && b == index);
                }
            } else {
                assert(bucket_has(pre.slots(), bs, altb, t));
                if t != overwritten || altb != index {
                    assert(bucket_has(self.slots(), bs, altb, t));
                    assert(findable_in(self.slots(), nb, bs, b, t));
                } else {
                    assert(t == evicted && altb == index);
                }
            }
        }
    }

    /// Fingerprints never get lost: an item found present before any
    /// insertion, successful or failed, is still found present after it.
    pub proof fn lemma_inserted_items_stay(pre: Self, post: Self, item: T)
        requires
            pre.wf(),
            Self::same_config(pre, post),
            Self::preserves_findable(pre, post),
            pre.contains_spec(item),
        ensures
            post.contains_spec(item),
    {
        pre.lemma_index1_bounds(item);
        pre.lemma_tag_fits(item);
        assert(findable_in(
            pre.slots(),
            pre.spec_num_buckets(),
            pre.spec_bucket_size() as int,
            pre.spec_index1(item),
            pre.spec_tag(item),
        ));
    }
}

impl<T, const FINGERPRINT_SIZE: usize, H: BuildHash<T>, R: RandomSource> SetMembership<
    T,
> for CuckooFilter<T, FINGERPRINT_SIZE, H, R> {
    type InsertError = NotEnoughSpace;

    open spec fn sm_wf(&self) -> bool {
        self.wf()
    }

    open spec fn sm_contains(&self, item: T) -> bool {
        self.contains_spec(item)
    }

    fn contains(&self, item: &T) -> (r: bool) {
        CuckooFilter::contains(self, item)
    }

    fn insert(&mut self, item: &T) -> (r: Result<(), NotEnoughSpace>) {
        CuckooFilter::insert(self, item)
    }
}

} // verus!
