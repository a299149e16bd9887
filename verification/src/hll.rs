//! HyperLogLog cardinality estimation: 5-bit registers packed three to a
//! 16-bit block.
//!
//! Each item hashes to one register, which keeps the maximum observed
//! "leading-zero run plus one" of the remaining hash bits.  Registers
//! only ever grow, so re-inserting an item is a no-op.

use vstd::prelude::*;

verus! {

use core::marker::PhantomData;
use crate::hash::BuildHash;

const REGISTER_SIZE: u16 = 5;

const REGISTERS_IN_BLOCK: usize = 3;

const MASK: u16 = 0x1f;

/// Register `i` of a block sequence: five bits at one of three offsets.
pub open spec fn reg_of(blocks: Seq<u16>, i: int) -> u16 {
    (blocks[i / 3] >> ((5 * (i % 3)) as u16)) & 0x1f
}

/// The blocks after writing the five bits of register `i` to `v`: only
/// block `i / 3` changes, and within it only the written field.
pub open spec fn block_write(blocks: Seq<u16>, i: int, v: u16) -> Seq<u16> {
    blocks.update(
        i / 3,
        (blocks[i / 3] & !(0x1fu16 << ((5 * (i % 3)) as u16))) | (v << ((5 * (i % 3)) as u16)),
    )
}

/// The register file after a max-update at register `i` with value `v`.
pub open spec fn max_update(regs: Seq<u8>, i: int, v: u8) -> Seq<u8> {
    if regs[i] >= v {
        regs
    } else {
        regs.update(i, v)
    }
}

/// Re-inserting the same observation never changes the registers after
/// the first time: the max-update is idempotent.
pub proof fn lemma_max_update_idempotent(regs: Seq<u8>, i: int, v: u8)
    requires
        0 <= i < regs.len(),
    ensures
        max_update(max_update(regs, i, v), i, v) == max_update(regs, i, v),
{
    if regs[i] < v {
        assert(regs.update(i, v)[i] == v);
    }
}

/// Writing five bits at one in-block offset leaves the other two
/// register positions of the block unchanged.
proof fn lemma_block_update(b: u16, s: u16, v: u16)
    by (bit_vector)
    requires
        s == 0 || s == 5 || s == 10,
        v <= 0x1f,
    ensures
        forall|s2: u16|
            (s2 == 0 || s2 == 5 || s2 == 10) && s2 != s ==> #[trigger] (((b & !(0x1fu16 << s)) | (v
                << s)) >> s2) & 0x1f == (b >> s2) & 0x1f,
        (((b & !(0x1fu16 << s)) | (v << s)) >> s) & 0x1f == v,
{
}

/// A fixed-size file of 5-bit registers, three per 16-bit block.
pub struct Registers {
    blocks: Vec<u16>,
    count: usize,
}

impl Registers {
    /// The blocks backing the registers.
    pub closed spec fn spec_blocks(&self) -> Seq<u16> {
        self.blocks@
    }

    pub closed spec fn spec_count(&self) -> nat {
        self.count as nat
    }

    /// The register values, in index order.
    pub open spec fn view(&self) -> Seq<u8> {
        Seq::new(self.spec_count(), |i: int| reg_of(self.spec_blocks(), i) as u8)
    }

    pub open spec fn wf(&self) -> bool {
        &&& self.spec_blocks().len() == (self.spec_count() + 2) / 3
        &&& self.spec_count() + 2 <= usize::MAX
    }

    /// A file of `count` zeroed registers.
    pub fn new(count: usize) -> (r: Self)
        requires
            count + 2 <= usize::MAX,
        ensures
            r.wf(),
            r@.len() == count,
            forall|i: int| 0 <= i < count ==> r@[i] == 0,
    {
        let num_blocks = (count + 2) / 3;
        let mut blocks: Vec<u16> = Vec::new();
        while blocks.len() < num_blocks
            invariant
                blocks.len() <= num_blocks,
                forall|j: int| 0 <= j < blocks.len() ==> blocks[j] == 0,
            decreases num_blocks - blocks.len(),
        {
            blocks.push(0);
        }
        let r = Registers { blocks, count };
        proof {
            assert forall|i: int| 0 <= i < count implies r@[i] == 0 by {
                assert(r.spec_blocks()[i / 3] == 0);
                let s = (5 * (i % 3)) as u16;
                assert((0u16 >> s) & 0x1f == 0) by (bit_vector);
            }
        }
        r
    }

    /// A file over caller-supplied blocks.
    pub fn with_blocks_and_count(blocks: Vec<u16>, count: usize) -> (r: Self)
        requires
            count + 2 <= usize::MAX,
            blocks.len() == (count + 2) / 3,
        ensures
            r.wf(),
            r.spec_blocks() == blocks@,
            r@.len() == count,
    {
        Registers { blocks, count }
    }

    /// How many registers the file holds.
    pub fn size(&self) -> (r: usize)
        requires
            self.wf(),
        ensures
            r == self@.len(),
    {
        self.count
    }

    /// The backing blocks.
    pub fn blocks(&self) -> (r: &Vec<u16>)
        ensures
            r@ == self.spec_blocks(),
    {
        &self.blocks
    }

    /// All register values, in index order.
    pub fn iter(&self) -> (r: Vec<u8>)
        requires
            self.wf(),
        ensures
            r@ == self@,
    {
        let mut out: Vec<u8> = Vec::new();
        let mut i: usize = 0;
        while i < self.count
            invariant
                self.wf(),
                i <= self.spec_count(),
                out@.len() == i,
                forall|t: int| 0 <= t < i ==> out@[t] == self@[t],
            decreases self.spec_count() - i,
        {
            proof {
                self.lemma_block_index_bounds(i as int);
            }
            let shift = 5 * ((i % 3) as u16);
            let v = (self.blocks[i / 3] >> shift) & 0x1f;
            proof {
                let b = self.spec_blocks()[i as int / 3];
                let s = shift;
                assert((b >> s) & 0x1f <= 0x1f) by (bit_vector);
            }
            out.push(v as u8);
            i += 1;
        }
        proof {
            assert(out@ =~= self@);
        }
        out
    }

    proof fn lemma_block_index_bounds(&self, i: int)
        requires
            self.wf(),
            0 <= i < self.spec_count(),
        ensures
            0 <= i / 3 < self.spec_blocks().len(),
    {
    }

    /// Raise register `index` to `value` if it is below it.
    pub fn update_max(&mut self, index: usize, value: u16)
        requires
            old(self).wf(),
            index < old(self)@.len(),
            value <= 0x1f,
        ensures
            final(self).wf(),
            final(self)@ == max_update(old(self)@, index as int, value as u8),
            final(self)@.len() == old(self)@.len(),
            final(self).spec_blocks() == (if (value as u8) > old(self)@[index as int] {
                block_write(old(self).spec_blocks(), index as int, value)
            } else {
                old(self).spec_blocks()
            }),
    {
        proof {
            self.lemma_block_index_bounds(index as int);
        }
        let block_index = index / 3;
        let shift = 5 * ((index % 3) as u16);
        let b = self.blocks[block_index];
        let current = (b >> shift) & 0x1f;
        proof {
            let s = shift;
            assert((b >> s) & 0x1f <= 0x1f) by (bit_vector);
            assert(current == reg_of(old(self).spec_blocks(), index as int));
        }
        if value > current {
            let nb = (b & !(0x1fu16 << shift)) | (value << shift);
            self.blocks.set(block_index, nb);
            proof {
                assert(self.spec_blocks() =~= block_write(
                    old(self).spec_blocks(),
                    index as int,
                    value,
                ));
                lemma_block_update(b, shift, value);
                assert forall|i: int| 0 <= i < self.spec_count() implies self@[i] == max_update(
                    old(self)@,
                    index as int,
                    value as u8,
                )[i] by {
                    self.lemma_block_index_bounds(i);
                    if i / 3 == block_index as int {
                        let s2 = (5 * (i % 3)) as u16;
                        if i == index as int {
                            assert(s2 == shift);
                            assert(reg_of(self.spec_blocks(), i) == value);
                        } else {
                            assert(i % 3 != index as int % 3);
                            assert(s2 != shift && (s2 == 0 || s2 == 5 || s2 == 10));
                            assert(reg_of(self.spec_blocks(), i) == reg_of(
                                old(self).spec_blocks(),
                                i,
                            ));
                        }
                    } else {
                        assert(self.spec_blocks()[i / 3] == old(self).spec_blocks()[i / 3]);
                    }
                }
                assert(self@ =~= max_update(old(self)@, index as int, value as u8));
            }
        } else {
            proof {
                assert(old(self)@[index as int] >= value);
                assert(self@ =~= max_update(old(self)@, index as int, value as u8));
            }
        }
    }
}

/// Cardinality estimation state: `2^precision` registers keeping the
/// maximum leading-zero run seen, capped at the register range.
pub struct HyperLogLog<T, H> {
    registers: Registers,
    precision: usize,
    build_hasher: H,
    _phantom: PhantomData<T>,
}

impl<T, H: BuildHash<T>> HyperLogLog<T, H> {
    pub closed spec fn regs(&self) -> Seq<u8> {
        self.registers@
    }

    pub closed spec fn spec_precision(&self) -> usize {
        self.precision
    }

    pub closed spec fn hasher(&self) -> H {
        self.build_hasher
    }

    pub closed spec fn regs_wf(&self) -> bool {
        self.registers.wf()
    }

    pub open spec fn wf(&self) -> bool {
        &&& self.regs_wf()
        &&& 4 <= self.spec_precision() <= 18
        &&& self.regs().len() == (1usize << self.spec_precision())
    }

    /// The register an item lands in: the top `precision` hash bits.
    pub open spec fn spec_index(&self, item: T) -> int {
        (self.hasher().hash_spec(item, 0) >> ((64 - self.spec_precision()) as u64)) as int
    }

    /// The observation an item contributes: leading zeros of the
    /// remaining bits (bounded by a forced terminating one-bit), plus
    /// one, capped to the register range.
    pub open spec fn spec_rho(&self, item: T) -> u8 {
        let h = self.hasher().hash_spec(item, 0);
        let p = self.spec_precision();
        let zeros = vstd::std_specs::bits::u64_leading_zeros(
            (h << (p as u64)) | (1u64 << ((p - 1) as u64)),
        );
        if zeros + 1 >= 0x1f {
            0x1f
        } else {
            (zeros + 1) as u8
        }
    }

    /// The register of any item lies inside the file.
    pub proof fn lemma_index_in_range(&self, item: T)
        requires
            self.wf(),
        ensures
            0 <= self.spec_index(item) < self.regs().len(),
    {
        let h = self.hasher().hash_spec(item, 0);
        let p = self.spec_precision();
        let pp = p as u64;
        assert(4 <= pp <= 18 ==> (h >> ((64 - pp) as u64)) < (1u64 << pp)) by (bit_vector);
        assert((1u64 << (p as u64)) == (1usize << p) as u64) by (bit_vector)
            requires
                4 <= p <= 18,
        ;
    }

    /// Repeated insertion of the same item never changes the estimator
    /// after the first insertion: stated over the relation that `insert`
    /// ensures between consecutive states.
    pub proof fn lemma_insert_idempotent(pre: Self, mid: Self, post: Self, item: T)
        requires
            pre.wf(),
            mid.spec_precision() == pre.spec_precision(),
            mid.hasher() == pre.hasher(),
            mid.regs() == max_update(pre.regs(), pre.spec_index(item), pre.spec_rho(item)),
            post.regs() == max_update(mid.regs(), mid.spec_index(item), mid.spec_rho(item)),
        ensures
            post.regs() == mid.regs(),
    {
        pre.lemma_index_in_range(item);
        assert(mid.spec_index(item) == pre.spec_index(item));
        assert(mid.spec_rho(item) == pre.spec_rho(item));
        lemma_max_update_idempotent(pre.regs(), pre.spec_index(item), pre.spec_rho(item));
    }

    /// An estimator of `2^precision` zeroed registers.
    pub fn new(precision: usize, build_hasher: H) -> (r: Self)
        requires
            4 <= precision <= 18,
        ensures
            r.wf(),
            r.spec_precision() == precision,
            r.hasher() == build_hasher,
            forall|i: int| 0 <= i < r.regs().len() ==> r.regs()[i] == 0,
    {
        let count = 1usize << precision;
        proof {
            assert(4 <= precision <= 18 ==> (1usize << precision) <= 262144 && (1usize
                << precision) > 0) by (bit_vector);
        }
        HyperLogLog {
            registers: Registers::new(count),
            precision,
            build_hasher,
            _phantom: PhantomData,
        }
    }

    pub fn precision(&self) -> (r: usize)
        ensures
            r == self.spec_precision(),
    {
        self.precision
    }

    /// All register values, for estimation.
    pub fn registers(&self) -> (r: Vec<u8>)
        requires
            self.wf(),
        ensures
            r@ == self.regs(),
    {
        self.registers.iter()
    }

    /// Record `item`: its register rises to the observed rank if that is
    /// larger, and nothing else changes.
    pub fn insert(&mut self, item: &T)
        requires
            old(self).wf(),
        ensures
            final(self).wf(),
            final(self).spec_precision() == old(self).spec_precision(),
            final(self).hasher() == old(self).hasher(),
            final(self).regs() == max_update(
                old(self).regs(),
                old(self).spec_index(*item),
                old(self).spec_rho(*item),
            ),
    {
        let hash = self.build_hasher.hash(item, 0);
        let p = self.precision;
        let index = (hash >> ((64 - p) as u64)) as usize;
        proof {
            let pp = p as u64;
            let h = hash;
            assert(4 <= pp <= 18 ==> (h >> ((64 - pp) as u64)) < (1u64 << pp)) by (bit_vector);
            assert((1u64 << (p as u64)) == (1usize << p) as u64) by (bit_vector)
                requires
                    4 <= p <= 18,
            ;
        }
        let zeros = ((hash << (p as u64)) | (1u64 << ((p - 1) as u64))).leading_zeros();
        let value: u16 = if zeros + 1 >= 0x1f {
            0x1f
        } else {
            (zeros + 1) as u16
        };
        proof {
            assert(value as u8 == old(self).spec_rho(*item));
            assert(index as int == old(self).spec_index(*item));
        }
        self.registers.update_max(index, value);
    }
}

} // verus!
