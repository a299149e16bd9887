//! Hash families and multi-hash derivation.
//!
//! Every probabilistic structure in this crate takes an injected hash
//! family: something that turns an item plus a salt into a 64-bit digest.
//! From one or two such digests, the derivation schemes below expand an
//! arbitrarily long sequence of pseudo-independent hash values.

use vstd::prelude::*;

verus! {

use vstd::wrapping::u32_specs;
use vstd::wrapping::u64_specs;

/// A family of 64-bit hash functions over items of type `T`, indexed by a
/// salt.  The digest is a pure function of the item and the salt, which is
/// what makes repeated queries land on the same positions.
pub trait BuildHash<T> {
    /// The digest as a mathematical function of item and salt.
    spec fn hash_spec(&self, item: T, salt: u64) -> u64;

    /// The 64-bit digest of `item` under family member `salt`.
    fn hash(&self, item: &T, salt: u64) -> (r: u64)
        ensures
            r == self.hash_spec(*item, salt),
    ;
}

/// Offset added before finalizing, so a zero input does not map to zero.
pub const GOLDEN_STEP: u64 = 0x9E37_79B9_7F4A_7C15;

/// Multiplier folding the salt into the pre-mix state.
pub const SALT_STEP: u64 = 0xD6E8_FEB8_6659_FD93;

pub const MIX_MUL_1: u64 = 0xBF58_476D_1CE4_E5B9;

pub const MIX_MUL_2: u64 = 0x94D0_49BB_1331_11EB;

/// A 64-bit finalizer: xor-shifts interleaved with odd multiplications,
/// spreading every input bit over the whole digest.
pub open spec fn mix64_spec(z0: u64) -> u64 {
    let z1 = u64_specs::wrapping_add(z0, GOLDEN_STEP);
    let z2 = u64_specs::wrapping_mul(z1 ^ (z1 >> 30), MIX_MUL_1);
    let z3 = u64_specs::wrapping_mul(z2 ^ (z2 >> 27), MIX_MUL_2);
    z3 ^ (z3 >> 31)
}

pub fn mix64(z0: u64) -> (r: u64)
    ensures
        r == mix64_spec(z0),
{
    let z1 = z0.wrapping_add(GOLDEN_STEP);
    let z2 = (z1 ^ (z1 >> 30)).wrapping_mul(MIX_MUL_1);
    let z3 = (z2 ^ (z2 >> 27)).wrapping_mul(MIX_MUL_2);
    z3 ^ (z3 >> 31)
}

/// The default hash family: the item's bits, salted, run through the
/// 64-bit finalizer.
#[derive(Clone, Copy)]
pub struct MixHash;

impl BuildHash<u64> for MixHash {
    open spec fn hash_spec(&self, item: u64, salt: u64) -> u64 {
        mix64_spec(item ^ u64_specs::wrapping_mul(salt, SALT_STEP))
    }

    fn hash(&self, item: &u64, salt: u64) -> (r: u64) {
        mix64(*item ^ salt.wrapping_mul(SALT_STEP))
    }
}

impl BuildHash<i32> for MixHash {
    open spec fn hash_spec(&self, item: i32, salt: u64) -> u64 {
        mix64_spec((item as u64) ^ u64_specs::wrapping_mul(salt, SALT_STEP))
    }

    fn hash(&self, item: &i32, salt: u64) -> (r: u64) {
        mix64((*item as u64) ^ salt.wrapping_mul(SALT_STEP))
    }
}

/// A transparent family for deterministic tests: the digest is the item's
/// own bits, perturbed linearly by the salt.
#[derive(Clone, Copy)]
pub struct RawHash;

impl BuildHash<u64> for RawHash {
    open spec fn hash_spec(&self, item: u64, salt: u64) -> u64 {
        item ^ u64_specs::wrapping_mul(salt, SALT_STEP)
    }

    fn hash(&self, item: &u64, salt: u64) -> (r: u64) {
        *item ^ salt.wrapping_mul(SALT_STEP)
    }
}

/// Split-hash mixing: one digest is split into a high and a low half, and
/// value `i` (counting from 1) is `h1 + i * h2 + i^3` in wrapping 32-bit
/// arithmetic.
pub open spec fn split_hash_value(hash: u64, i: u32) -> u32 {
    let h1 = (hash >> 32) as u32;
    let h2 = hash as u32;
    u32_specs::wrapping_add(
        u32_specs::wrapping_add(h1, u32_specs::wrapping_mul(h2, i)),
        u32_specs::wrapping_mul(u32_specs::wrapping_mul(i, i), i),
    )
}

/// The first `k` values of the split-hash mixing sequence for `item`,
/// derived from the salt-0 digest.
pub fn iter_hashes<T, H: BuildHash<T>>(item: &T, build_hasher: &H, k: usize) -> (r: Vec<u32>)
    requires
        k < 0x1_0000_0000,
    ensures
        r@.len() == k,
        forall|t: int|
            0 <= t < k ==> r@[t] == split_hash_value(
                build_hasher.hash_spec(*item, 0),
                (t + 1) as u32,
            ),
{
    let hash = build_hasher.hash(item, 0);
    let h1 = (hash >> 32) as u32;
    let h2 = #[verifier::truncate] (hash as u32);
    let mut out: Vec<u32> = Vec::new();
    let mut t: usize = 0;
    while t < k
        invariant
            k < 0x1_0000_0000,
            t <= k,
            h1 == (hash >> 32) as u32,
            h2 == hash as u32,
            out@.len() == t,
            forall|s: int| 0 <= s < t ==> out@[s] == split_hash_value(hash, (s + 1) as u32),
        decreases k - t,
    {
        let i = (t + 1) as u32;
        let v = h1.wrapping_add(h2.wrapping_mul(i)).wrapping_add(i.wrapping_mul(i).wrapping_mul(i));
        out.push(v);
        t += 1;
    }
    out
}

/// State of the enhanced double hashing sequence after `i` steps: the pair
/// of values at positions `i` and `i + 1` (counting emitted values from 0).
pub open spec fn double_hash_state(h1: u64, h2: u64, m: u64, i: nat) -> (u64, u64)
    decreases i,
{
    if i == 0 {
        (h1 % m, h2 % m)
    } else {
        let prev = double_hash_state(h1, h2, m, (i - 1) as nat);
        (prev.1, u64_specs::wrapping_add(prev.0, u64_specs::wrapping_mul((i + 2) as u64, prev.1))
            % m)
    }
}

/// Value `j` of the enhanced double hashing sequence: `h1 mod m`, then
/// `h2 mod m`, then each value combines the two before it.
pub open spec fn double_hash_value(h1: u64, h2: u64, m: u64, j: nat) -> u64 {
    if j == 0 {
        h1 % m
    } else {
        double_hash_state(h1, h2, m, (j - 1) as nat).1
    }
}

pub proof fn lemma_double_hash_state_bounded(h1: u64, h2: u64, m: u64, i: nat)
    requires
        m > 0,
    ensures
        double_hash_state(h1, h2, m, i).0 < m,
        double_hash_state(h1, h2, m, i).1 < m,
    decreases i,
{
    if i > 0 {
        lemma_double_hash_state_bounded(h1, h2, m, (i - 1) as nat);
    }
}

/// Every emitted value of the enhanced double hashing sequence lies below
/// the modulus.
pub proof fn lemma_double_hash_value_bounded(h1: u64, h2: u64, m: u64, j: nat)
    requires
        m > 0,
    ensures
        double_hash_value(h1, h2, m, j) < m,
{
    if j > 0 {
        lemma_double_hash_state_bounded(h1, h2, m, (j - 1) as nat);
    }
}

/// Enhanced double hashing: exactly `k` values in `[0, modulus)` for
/// `item`, all derived from the two digests at salts 1 and 2.
pub fn next_k<T, H: BuildHash<T>>(item: &T, build_hasher: &H, modulus: u64, k: usize) -> (r: Vec<
    u64,
>)
    requires
        modulus > 0,
        k < 0x1_0000_0000,
    ensures
        r@.len() == k,
        forall|j: int|
            0 <= j < k ==> r@[j] == double_hash_value(
                build_hasher.hash_spec(*item, 1),
                build_hasher.hash_spec(*item, 2),
                modulus,
                j as nat,
            ),
        forall|j: int| 0 <= j < k ==> r@[j] < modulus,
{
    let ghost h1s = build_hasher.hash_spec(*item, 1);
    let ghost h2s = build_hasher.hash_spec(*item, 2);
    let mut a = build_hasher.hash(item, 1) % modulus;
    let mut b = build_hasher.hash(item, 2) % modulus;
    let mut out: Vec<u64> = Vec::new();
    let mut j: usize = 0;
    while j < k
        invariant
            modulus > 0,
            k < 0x1_0000_0000,
            j <= k,
            a == double_hash_state(h1s, h2s, modulus, j as nat).0,
            b == double_hash_state(h1s, h2s, modulus, j as nat).1,
            a < modulus,
            b < modulus,
            out@.len() == j,
            forall|s: int|
                0 <= s < j ==> out@[s] == double_hash_value(h1s, h2s, modulus, s as nat),
            forall|s: int| 0 <= s < j ==> out@[s] < modulus,
        decreases k - j,
    {
        proof {
            if j > 0 {
                assert(double_hash_state(h1s, h2s, modulus, j as nat).0 == double_hash_state(
                    h1s,
                    h2s,
                    modulus,
                    (j - 1) as nat,
                ).1);
            }
        }
        out.push(a);
        let coef = (j as u64) + 3;
        let next = a.wrapping_add(coef.wrapping_mul(b)) % modulus;
        a = b;
        b = next;
        j += 1;
        proof {
            assert(double_hash_state(h1s, h2s, modulus, j as nat) == (
                double_hash_state(h1s, h2s, modulus, (j - 1) as nat).1,
                u64_specs::wrapping_add(
                    double_hash_state(h1s, h2s, modulus, (j - 1) as nat).0,
                    u64_specs::wrapping_mul(
                        (j + 2) as u64,
                        double_hash_state(h1s, h2s, modulus, (j - 1) as nat).1,
                    ),
                ) % modulus,
            ));
        }
    }
    out
}

} // verus!
