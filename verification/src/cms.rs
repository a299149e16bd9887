//! Count-Min Sketch: frequency estimation with overestimation only.
//!
//! A `width x depth` grid of wrapping 32-bit counters.  Each increment
//! adds to one counter per row, at a column drawn by enhanced double
//! hashing; a query takes the minimum over the rows, an upper bound on
//! the true frequency as long as no counter has wrapped.

use vstd::prelude::*;

verus! {

use core::marker::PhantomData;
use vstd::wrapping::u32_specs;
use crate::hash::BuildHash;
use crate::hash::double_hash_value;
use crate::hash::lemma_double_hash_value_bounded;
use crate::hash::next_k;

/// One increment at the model level, over unbounded counters: add `c` to
/// the counter of each row `i` at column `cols[i]`.
pub open spec fn grid_add(s: Seq<nat>, width: int, cols: Seq<int>, c: nat) -> Seq<nat> {
    Seq::new(
        s.len(),
        |j: int|
            if exists|i: int| 0 <= i < cols.len() && j == i * width + cols[i] {
                s[j] + c
            } else {
                s[j]
            },
    )
}

/// A whole sequence of increments, applied in order.
pub open spec fn run_ops(s: Seq<nat>, width: int, ops: Seq<(Seq<int>, nat)>) -> Seq<nat>
    decreases ops.len(),
{
    if ops.len() == 0 {
        s
    } else {
        grid_add(run_ops(s, width, ops.drop_last()), width, ops.last().0, ops.last().1)
    }
}

/// The true frequency of the item whose column sequence is `cols`: the
/// total amount added by exactly-matching increments.
pub open spec fn freq_of(ops: Seq<(Seq<int>, nat)>, cols: Seq<int>) -> nat
    decreases ops.len(),
{
    if ops.len() == 0 {
        0
    } else {
        freq_of(ops.drop_last(), cols) + if ops.last().0 == cols {
            ops.last().1
        } else {
            0nat
        }
    }
}

proof fn lemma_run_ops_len(s: Seq<nat>, width: int, ops: Seq<(Seq<int>, nat)>)
    ensures
        run_ops(s, width, ops).len() == s.len(),
    decreases ops.len(),
{
    if ops.len() > 0 {
        lemma_run_ops_len(s, width, ops.drop_last());
    }
}

/// A sketch never undercounts: over unbounded counters, after any
/// sequence of increments every counter on an item's own positions is at
/// least the item's true frequency (plus whatever the counter held to
/// begin with).  Colliding increments only push it higher.
pub proof fn lemma_counter_dominates_frequency(
    s: Seq<nat>,
    width: int,
    ops: Seq<(Seq<int>, nat)>,
    target: Seq<int>,
    i: int,
)
    requires
        0 <= i < target.len(),
        0 <= i * width + target[i] < s.len(),
    ensures
        run_ops(s, width, ops)[i * width + target[i]] >= s[i * width + target[i]] + freq_of(
            ops,
            target,
        ),
    decreases ops.len(),
{
    let j = i * width + target[i];
    if ops.len() > 0 {
        lemma_counter_dominates_frequency(s, width, ops.drop_last(), target, i);
        lemma_run_ops_len(s, width, ops.drop_last());
        let prev = run_ops(s, width, ops.drop_last());
        let cols = ops.last().0;
        if cols == target {
            assert(0 <= i < cols.len() && j == i * width + cols[i]);
            assert(grid_add(prev, width, cols, ops.last().1)[j] == prev[j] + ops.last().1);
        }
    }
}

/// A counter of an item that is never incremented stays put, as long as
/// no other increment collides with it in that row.
pub proof fn lemma_counter_unchanged_without_collision(
    s: Seq<nat>,
    width: int,
    ops: Seq<(Seq<int>, nat)>,
    target: Seq<int>,
    i: int,
)
    requires
        width > 0,
        0 <= i < target.len(),
        0 <= target[i] < width,
        0 <= i * width + target[i] < s.len(),
        forall|k: int, i2: int|
            0 <= k < ops.len() && 0 <= i2 < ops[k].0.len() ==> 0 <= #[trigger] ops[k].0[i2]
                < width,
        forall|k: int|
            0 <= k < ops.len() ==> ((#[trigger] ops[k].0).len() <= target.len() && (i
                < ops[k].0.len() ==> ops[k].0[i] != target[i])),
    ensures
        run_ops(s, width, ops)[i * width + target[i]] == s[i * width + target[i]],
    decreases ops.len(),
{
    let j = i * width + target[i];
    if ops.len() > 0 {
        lemma_counter_unchanged_without_collision(s, width, ops.drop_last(), target, i);
        lemma_run_ops_len(s, width, ops.drop_last());
        let prev = run_ops(s, width, ops.drop_last());
        let cols = ops.last().0;
        assert(ops[ops.len() - 1] == ops.last());
        if exists|i2: int| 0 <= i2 < cols.len() && j == i2 * width + cols[i2] {
            let i2 = choose|i2: int| 0 <= i2 < cols.len() && j == i2 * width + cols[i2];
            assert(i2 == i) by (nonlinear_arith)
                requires
                    width > 0,
                    0 <= target[i] < width,
                    0 <= cols[i2] < width,
                    i * width + target[i] == i2 * width + cols[i2],
            ;
            assert(false);
        }
        assert(grid_add(prev, width, cols, ops.last().1)[j] == prev[j]);
    }
}

/// The bridge between the executable counters and the unbounded model:
/// while a counter has room, the wrapping update is the plain sum, so
/// the no-undercount bound carries over until the first wraparound.
pub proof fn lemma_wrapping_add_matches_unbounded(x: u32, c: u32)
    requires
        x + c <= u32::MAX,
    ensures
        u32_specs::wrapping_add(x, c) == x + c,
{
}

/// Frequency estimation over a `width x depth` grid of wrapping 32-bit
/// counters.
pub struct CountMinSketch<T, H> {
    counters: Vec<u32>,
    width: usize,
    depth: usize,
    build_hasher: H,
    _phantom: PhantomData<T>,
}

impl<T, H: BuildHash<T>> CountMinSketch<T, H> {
    /// The counter grid, row by row.
    pub closed spec fn grid(&self) -> Seq<u32> {
        self.counters@
    }

    pub closed spec fn spec_width(&self) -> usize {
        self.width
    }

    pub closed spec fn spec_depth(&self) -> usize {
        self.depth
    }

    pub closed spec fn hasher(&self) -> H {
        self.build_hasher
    }

    pub open spec fn wf(&self) -> bool {
        &&& self.grid().len() == self.spec_width() * self.spec_depth()
        &&& self.grid().len() <= usize::MAX
        &&& self.spec_width() > 0
        &&& 0 < self.spec_depth() < 0x1_0000_0000
    }

    /// The column of `item` in row `i`, by enhanced double hashing.
    pub open spec fn spec_col(&self, item: T, i: int) -> int {
        double_hash_value(
            self.hasher().hash_spec(item, 1),
            self.hasher().hash_spec(item, 2),
            self.spec_width() as u64,
            i as nat,
        ) as int
    }

    /// The grid index of `item` in row `i`.
    pub open spec fn spec_index(&self, item: T, i: int) -> int {
        i * self.spec_width() + self.spec_col(item, i)
    }

    pub proof fn lemma_index_bounds(&self, item: T, i: int)
        requires
            self.wf(),
            0 <= i < self.spec_depth(),
        ensures
            0 <= self.spec_index(item, i) < self.grid().len(),
            0 <= self.spec_col(item, i) < self.spec_width(),
    {
        lemma_double_hash_value_bounded(
            self.hasher().hash_spec(item, 1),
            self.hasher().hash_spec(item, 2),
            self.spec_width() as u64,
            i as nat,
        );
        let w = self.spec_width() as int;
        let d = self.spec_depth() as int;
        let c = self.spec_col(item, i);
        assert(0 <= i * w + c < w * d) by (nonlinear_arith)
            requires
                0 <= i < d,
                0 <= c < w,
        ;
    }

    /// Rows use disjoint index ranges, so two rows never share a counter.
    proof fn lemma_rows_disjoint(&self, item: T, i1: int, i2: int)
        requires
            self.wf(),
            0 <= i1 < self.spec_depth(),
            0 <= i2 < self.spec_depth(),
            i1 != i2,
        ensures
            self.spec_index(item, i1) != self.spec_index(item, i2),
    {
        self.lemma_index_bounds(item, i1);
        self.lemma_index_bounds(item, i2);
        let w = self.spec_width() as int;
        let c1 = self.spec_col(item, i1);
        let c2 = self.spec_col(item, i2);
        assert(i1 * w + c1 != i2 * w + c2) by (nonlinear_arith)
            requires
                i1 != i2,
                0 <= c1 < w,
                0 <= c2 < w,
        ;
    }

    /// A sketch of `width` columns and `depth` rows, all counters zero.
    pub fn new(width: usize, depth: usize, build_hasher: H) -> (r: Self)
        requires
            width > 0,
            0 < depth < 0x1_0000_0000,
            width * depth <= usize::MAX,
        ensures
            r.wf(),
            r.spec_width() == width,
            r.spec_depth() == depth,
            r.hasher() == build_hasher,
            forall|j: int| 0 <= j < r.grid().len() ==> r.grid()[j] == 0,
    {
        proof {
            assert(width * depth >= depth) by (nonlinear_arith)
                requires
                    width > 0,
                    depth > 0,
            ;
        }
        let size = width.checked_mul(depth).unwrap();
        let mut counters: Vec<u32> = Vec::new();
        while counters.len() < size
            invariant
                counters.len() <= size,
                forall|j: int| 0 <= j < counters.len() ==> counters[j] == 0,
            decreases size - counters.len(),
        {
            counters.push(0);
        }
        // reading the length back puts its machine bound in scope
        let _n = counters.len();
        CountMinSketch { counters, width, depth, build_hasher, _phantom: PhantomData }
    }

    pub fn width(&self) -> (r: usize)
        ensures
            r == self.spec_width(),
    {
        self.width
    }

    pub fn depth(&self) -> (r: usize)
        ensures
            r == self.spec_depth(),
    {
        self.depth
    }

    /// Zero every counter.
    pub fn clear(&mut self)
        requires
            old(self).wf(),
        ensures
            final(self).wf(),
            final(self).spec_width() == old(self).spec_width(),
            final(self).spec_depth() == old(self).spec_depth(),
            final(self).hasher() == old(self).hasher(),
            forall|j: int| 0 <= j < final(self).grid().len() ==> final(self).grid()[j] == 0,
    {
        let n = self.counters.len();
        let mut j: usize = 0;
        while j < n
            invariant
                n == self.grid().len(),
                self.width == old(self).width,
                self.depth == old(self).depth,
                self.build_hasher == old(self).build_hasher,
                self.grid().len() == old(self).grid().len(),
                j <= n,
                forall|t: int| 0 <= t < j ==> self.grid()[t] == 0,
            decreases n - j,
        {
            self.counters.set(j, 0);
            j += 1;
        }
    }

    /// The estimated frequency of `item`: the smallest of its row
    /// counters, never below the true frequency while no counter wraps.
    pub fn count(&self, item: &T) -> (r: u32)
        requires
            self.wf(),
        ensures
            forall|i: int|
                0 <= i < self.spec_depth() ==> r <= self.grid()[#[trigger] self.spec_index(
                    *item,
                    i,
                )],
            exists|i: int|
                0 <= i < self.spec_depth() && r == self.grid()[#[trigger] self.spec_index(
                    *item,
                    i,
                )],
    {
        let hashes = next_k(item, &self.build_hasher, self.width as u64, self.depth);
        proof {
            self.lemma_index_bounds(*item, 0);
        }
        let mut best = self.counters[0 * self.width + (hashes[0] as usize)];
        let mut i: usize = 1;
        while i < self.depth
            invariant
                self.wf(),
                1 <= i <= self.spec_depth(),
                hashes@.len() == self.spec_depth(),
                forall|t: int|
                    0 <= t < self.spec_depth() ==> hashes@[t] as int == self.spec_col(*item, t),
                forall|t: int|
                    0 <= t < i ==> best <= self.grid()[#[trigger] self.spec_index(*item, t)],
                exists|t: int|
                    0 <= t < i && best == self.grid()[#[trigger] self.spec_index(*item, t)],
            decreases self.spec_depth() - i,
        {
            proof {
                self.lemma_index_bounds(*item, i as int);
                assert(self.spec_width() == self.width);
                assert(hashes@[i as int] as int == self.spec_col(*item, i as int));
                assert(i as int * self.width as int + hashes@[i as int] as int == self.spec_index(
                    *item,
                    i as int,
                ));
                assert(i as int * self.width as int + (hashes@[i as int] as int) < self.grid().len());
            }
            let idx = i * self.width + (hashes[i] as usize);
            let v = self.counters[idx];
            if v < best {
                best = v;
            }
            i += 1;
        }
        best
    }

    /// Add `count` to one counter per row, wrapping on overflow.
    pub fn increment(&mut self, item: &T, count: u32)
        requires
            old(self).wf(),
        ensures
            final(self).wf(),
            final(self).spec_width() == old(self).spec_width(),
            final(self).spec_depth() == old(self).spec_depth(),
            final(self).hasher() == old(self).hasher(),
            forall|j: int|
                0 <= j < old(self).grid().len() ==> final(self).grid()[j] == (
                if exists|i: int|
                    0 <= i < old(self).spec_depth() && #[trigger] old(self).spec_index(*item, i)
                        == j {
                    u32_specs::wrapping_add(old(self).grid()[j], count)
                } else {
                    old(self).grid()[j]
                }),
    {
        let hashes = next_k(item, &self.build_hasher, self.width as u64, self.depth);
        let mut i: usize = 0;
        while i < self.depth
            invariant
                self.wf(),
                old(self).wf(),
                i <= self.spec_depth(),
                self.width == old(self).width,
                self.depth == old(self).depth,
                self.build_hasher == old(self).build_hasher,
                self.grid().len() == old(self).grid().len(),
                hashes@.len() == self.spec_depth(),
                forall|t: int|
                    0 <= t < self.spec_depth() ==> hashes@[t] as int == old(self).spec_col(
                        *item,
                        t,
                    ),
                forall|j: int|
                    0 <= j < old(self).grid().len() ==> self.grid()[j] == (
                    if exists|t: int|
                        0 <= t < i && #[trigger] old(self).spec_index(*item, t) == j {
                        u32_specs::wrapping_add(old(self).grid()[j], count)
                    } else {
                        old(self).grid()[j]
                    }),
            decreases self.spec_depth() - i,
        {
            proof {
                old(self).lemma_index_bounds(*item, i as int);
                assert(old(self).spec_width() == self.width);
                assert(hashes@[i as int] as int == old(self).spec_col(*item, i as int));
                assert(i as int * self.width as int + hashes@[i as int] as int == old(
                    self,
                ).spec_index(*item, i as int));
                assert(i as int * self.width as int + (hashes@[i as int] as int) < self.grid().len());
                assert forall|t: int| 0 <= t < i implies #[trigger] old(self).spec_index(*item, t)
                    != old(self).spec_index(*item, i as int) by {
                    old(self).lemma_rows_disjoint(*item, t, i as int);
                }
            }
            let idx = i * self.width + (hashes[i] as usize);
            let ghost pre = self.grid();
            let v = self.counters[idx].wrapping_add(count);
            self.counters.set(idx, v);
            proof {
                let ji = old(self).spec_index(*item, i as int);
                assert(self.grid() == pre.update(ji, v));
                assert forall|j: int| 0 <= j < old(self).grid().len() implies self.grid()[j] == (
                if exists|t: int| 0 <= t < i + 1 && #[trigger] old(self).spec_index(*item, t) == j {
                    u32_specs::wrapping_add(old(self).grid()[j], count)
                } else {
                    old(self).grid()[j]
                }) by {
                    if j == ji {
                        assert(old(self).spec_index(*item, i as int) == j);
                        assert(pre[j] == old(self).grid()[j]);
                    }
                }
            }
            i += 1;
        }
    }
}

} // verus!
