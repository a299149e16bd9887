//! Thin verified interface over `fixedbitset::FixedBitSet`.
//!
//! The bitmap itself lives in the outside crate; its contents are modelled
//! here as a sequence of booleans, and each operation the crate's
//! structures rely on gets a wrapper stating what it does to that model.

use vstd::prelude::*;

verus! {

use fixedbitset::FixedBitSet;

#[verifier::external_type_specification]
#[verifier::external_body]
pub struct ExFixedBitSet(FixedBitSet);

/// What the bitmap holds: one boolean per bit position.
pub uninterp spec fn bits_of(s: FixedBitSet) -> Seq<bool>;

/// The number of set bits in a bitmap model.
pub open spec fn count_trues(s: Seq<bool>) -> nat
    decreases s.len(),
{
    if s.len() == 0 {
        0
    } else {
        count_trues(s.drop_last()) + if s.last() {
            1nat
        } else {
            0nat
        }
    }
}

/// No bitmap holds more set bits than its length.
pub proof fn lemma_count_trues_le_len(s: Seq<bool>)
    ensures
        count_trues(s) <= s.len(),
    decreases s.len(),
{
    if s.len() > 0 {
        lemma_count_trues_le_len(s.drop_last());
    }
}

/// An all-unset bitmap holds no set bits.
pub proof fn lemma_count_trues_all_false(s: Seq<bool>)
    requires
        forall|i: int| 0 <= i < s.len() ==> !s[i],
    ensures
        count_trues(s) == 0,
    decreases s.len(),
{
    if s.len() > 0 {
        lemma_count_trues_all_false(s.drop_last());
    }
}

/// Setting one bit raises the count of set bits by one exactly when the
/// bit was unset.
pub proof fn lemma_count_trues_update_true(s: Seq<bool>, i: int)
    requires
        0 <= i < s.len(),
    ensures
        count_trues(s.update(i, true)) == count_trues(s) + (if s[i] {
            0int
        } else {
            1int
        }),
    decreases s.len(),
{
    let s2 = s.update(i, true);
    if i == s.len() - 1 {
        assert(s2.drop_last() =~= s.drop_last());
    } else {
        assert(s2.drop_last() =~= s.drop_last().update(i, true));
        lemma_count_trues_update_true(s.drop_last(), i);
        assert(s2.last() == s.last());
    }
}

/// Relies on `FixedBitSet::with_capacity`: a bitmap of `bits` bits, all
/// unset.
#[verifier::external_body]
pub(crate) fn fbs_with_capacity(bits: usize) -> (r: FixedBitSet)
    ensures
        bits_of(r).len() == bits,
        forall|i: int| 0 <= i < bits ==> !bits_of(r)[i],
{
    FixedBitSet::with_capacity(bits)
}

/// Relies on `FixedBitSet::len`: the length in bits, set or unset.
#[verifier::external_body]
pub(crate) fn fbs_len(s: &FixedBitSet) -> (r: usize)
    ensures
        r == bits_of(*s).len(),
{
    s.len()
}

/// Relies on `FixedBitSet::is_empty`: true only for a bitmap of length
/// zero.
#[verifier::external_body]
pub(crate) fn fbs_is_empty(s: &FixedBitSet) -> (r: bool)
    ensures
        r == (bits_of(*s).len() == 0),
{
    s.is_empty()
}

/// Relies on `FixedBitSet::contains`: whether an in-range `bit` is set.
#[verifier::external_body]
pub(crate) fn fbs_contains(s: &FixedBitSet, bit: usize) -> (r: bool)
    requires
        bit < bits_of(*s).len(),
    ensures
        r == bits_of(*s)[bit as int],
{
    s.contains(bit)
}

/// Relies on `FixedBitSet::put`: sets `bit` and reports whether it was
/// already set.
#[verifier::external_body]
pub(crate) fn fbs_put(s: &mut FixedBitSet, bit: usize) -> (r: bool)
    requires
        bit < bits_of(*old(s)).len(),
    ensures
        bits_of(*final(s)) == bits_of(*old(s)).update(bit as int, true),
        r == bits_of(*old(s))[bit as int],
{
    s.put(bit)
}

/// Relies on `FixedBitSet::count_ones` over the full range: the number of
/// set bits.
#[verifier::external_body]
pub(crate) fn fbs_count_ones(s: &FixedBitSet) -> (r: usize)
    ensures
        r == count_trues(bits_of(*s)),
{
    s.count_ones(..)
}

/// Relies on `FixedBitSet::clear`: unsets every bit, keeping the length.
#[verifier::external_body]
pub(crate) fn fbs_clear(s: &mut FixedBitSet)
    ensures
        bits_of(*final(s)).len() == bits_of(*old(s)).len(),
        forall|i: int| 0 <= i < bits_of(*final(s)).len() ==> !bits_of(*final(s))[i],
{
    s.clear()
}

} // verus!
