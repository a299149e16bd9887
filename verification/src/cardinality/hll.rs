//! HyperLogLog cardinality estimation over 6-bit registers in a packed
//! bit store.
//!
//! The variant here keeps its registers in a `BitVec<6>`, wide enough to
//! hold every possible leading-zero rank without capping.

use vstd::prelude::*;

verus! {

use core::marker::PhantomData;
use crate::bit_vec::BitVec;
use crate::hash::BuildHash;

/// The register file after a max-update at register `i` with value `v`.
pub open spec fn max_update(regs: Seq<u32>, i: int, v: u32) -> Seq<u32> {
    if regs[i] >= v {
        regs
    } else {
        regs.update(i, v)
    }
}

/// Re-inserting the same observation never changes the registers after
/// the first time: the max-update is idempotent.
pub proof fn lemma_max_update_idempotent(regs: Seq<u32>, i: int, v: u32)
    requires
        0 <= i < regs.len(),
    ensures
        max_update(max_update(regs, i, v), i, v) == max_update(regs, i, v),
{
    if regs[i] < v {
        assert(regs.update(i, v)[i] == v);
    }
}

/// Cardinality estimation state: `2^precision` six-bit registers keeping
/// the maximum observed leading-zero rank.
pub struct HyperLogLog<T, H> {
    registers: BitVec<6>,
    precision: usize,
    build_hasher: H,
    _phantom: PhantomData<T>,
}

impl<T, H: BuildHash<T>> HyperLogLog<T, H> {
    pub closed spec fn regs(&self) -> Seq<u32> {
        self.registers@
    }

    pub closed spec fn spec_precision(&self) -> usize {
        self.precision
    }

    pub closed spec fn hasher(&self) -> H {
        self.build_hasher
    }

    pub closed spec fn regs_wf(&self) -> bool {
        self.registers.wf()
    }

    pub open spec fn wf(&self) -> bool {
        &&& self.regs_wf()
        &&& 4 <= self.spec_precision() <= 18
        &&& self.regs().len() == (1usize << self.spec_precision())
    }

    /// The register an item lands in: the top `precision` hash bits.
    pub open spec fn spec_index(&self, item: T) -> int {
        (self.hasher().hash_spec(item, 0) >> ((64 - self.spec_precision()) as u64)) as int
    }

    /// The observation an item contributes: leading zeros of the
    /// remaining bits, bounded by a forced terminating one-bit, plus one.
    pub open spec fn spec_rho(&self, item: T) -> u32 {
        let h = self.hasher().hash_spec(item, 0);
        let p = self.spec_precision();
        (vstd::std_specs::bits::u64_leading_zeros(
            (h << (p as u64)) | (1u64 << ((p - 1) as u64)),
        ) + 1) as u32
    }

    /// The register of any item lies inside the file.
    pub proof fn lemma_index_in_range(&self, item: T)
        requires
            self.wf(),
        ensures
            0 <= self.spec_index(item) < self.regs().len(),
    {
        let h = self.hasher().hash_spec(item, 0);
        let p = self.spec_precision();
        let pp = p as u64;
        assert(4 <= pp <= 18 ==> (h >> ((64 - pp) as u64)) < (1u64 << pp)) by (bit_vector);
        assert((1u64 << (p as u64)) == (1usize << p) as u64) by (bit_vector)
            requires
                4 <= p <= 18,
        ;
    }

    /// Repeated insertion of the same item never changes the estimator
    /// after the first insertion: stated over the relation that `insert`
    /// ensures between consecutive states.
    pub proof fn lemma_insert_idempotent(pre: Self, mid: Self, post: Self, item: T)
        requires
            pre.wf(),
            mid.spec_precision() == pre.spec_precision(),
            mid.hasher() == pre.hasher(),
            mid.regs() == max_update(pre.regs(), pre.spec_index(item), pre.spec_rho(item)),
            post.regs() == max_update(mid.regs(), mid.spec_index(item), mid.spec_rho(item)),
        ensures
            post.regs() == mid.regs(),
    {
        pre.lemma_index_in_range(item);
        assert(mid.spec_index(item) == pre.spec_index(item));
        assert(mid.spec_rho(item) == pre.spec_rho(item));
        lemma_max_update_idempotent(pre.regs(), pre.spec_index(item), pre.spec_rho(item));
    }

    /// An estimator of `2^precision` zeroed registers.
    pub fn new(precision: usize, build_hasher: H) -> (r: Self)
        requires
            4 <= precision <= 18,
        ensures
            r.wf(),
            r.spec_precision() == precision,
            r.hasher() == build_hasher,
            forall|i: int| 0 <= i < r.regs().len() ==> r.regs()[i] == 0,
    {
        proof {
            assert(4 <= precision <= 18 ==> 0 < (1usize << precision) <= 262144) by (bit_vector);
        }
        let count = 1usize << precision;
        HyperLogLog {
            registers: BitVec::<6>::new(count),
            precision,
            build_hasher,
            _phantom: PhantomData,
        }
    }

    pub fn precision(&self) -> (r: usize)
        ensures
            r == self.spec_precision(),
    {
        self.precision
    }

    /// All register values, for estimation.
    pub fn registers(&self) -> (r: Vec<u32>)
        requires
            self.wf(),
        ensures
            r@ == self.regs(),
    {
        self.registers.iter()
    }

    /// Record `item`: its register rises to the observed rank if that is
    /// larger, and nothing else changes.
    pub fn insert(&mut self, item: &T)
        requires
            old(self).wf(),
        ensures
            final(self).wf(),
            final(self).spec_precision() == old(self).spec_precision(),
            final(self).hasher() == old(self).hasher(),
            final(self).regs() == max_update(
                old(self).regs(),
                old(self).spec_index(*item),
                old(self).spec_rho(*item),
            ),
    {
        let hash = self.build_hasher.hash(item, 0);
        let p = self.precision;
        let index = (hash >> ((64 - p) as u64)) as usize;
        proof {
            let pp = p as u64;
            let h = hash;
            assert(4 <= pp <= 18 ==> (h >> ((64 - pp) as u64)) < (1u64 << pp)) by (bit_vector);
            assert((1u64 << (p as u64)) == (1usize << p) as u64) by (bit_vector)
                requires
                    4 <= p <= 18,
            ;
        }
        let masked = (hash << (p as u64)) | (1u64 << ((p - 1) as u64));
        let zeros = masked.leading_zeros();
        proof {
            let v = masked;
            let pp = p as u64;
            assert((v >> ((pp - 1) as u64)) & 1 == 1) by (bit_vector)
                requires
                    4 <= pp <= 18,
                    v == (hash << pp) | (1u64 << ((pp - 1) as u64)),
            ;
            vstd::std_specs::bits::axiom_u64_leading_zeros(v);
            assert(vstd::std_specs::bits::u64_leading_zeros(v) < 62) by {
                let lz = vstd::std_specs::bits::u64_leading_zeros(v);
                if lz >= 62 {
                    assert(64 - lz <= ((pp - 1) as u64));
                    assert(((pp - 1) as u64) < 64);
                    assert((v >> ((pp - 1) as u64)) & 1 == 0);
                }
            }
            vstd::bits::lemma_low_bits_mask_values();
        }
        let rho = zeros + 1;
        let current = self.registers.get(index);
        if current < rho {
            proof {
                crate::bit_vec::lemma_mask_noop(rho, 6);
            }
            self.registers.set(index, rho);
            proof {
                assert(self.regs() =~= max_update(
                    old(self).regs(),
                    old(self).spec_index(*item),
                    old(self).spec_rho(*item),
                ));
            }
        } else {
            proof {
                assert(self.regs() =~= max_update(
                    old(self).regs(),
                    old(self).spec_index(*item),
                    old(self).spec_rho(*item),
                ));
            }
        }
    }
}

} // verus!
