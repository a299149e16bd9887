//! Compact storage of fixed-width unsigned fields packed tightly across
//! byte boundaries.
//!
//! A `BitVec<N>` owns a byte buffer holding `size` fields of `N` bits each,
//! field `i` starting at bit offset `N * i`.  One extra byte is kept at the
//! end of the buffer so that every field lies strictly inside it.

use vstd::prelude::*;

verus! {

use vstd::arithmetic::power2::pow2;
use vstd::arithmetic::power2::lemma_pow2_unfold;
use vstd::arithmetic::power2::lemma_pow2_pos;
use vstd::arithmetic::power2::lemma2_to64;
use vstd::bits::low_bits_mask;

/// Bit `k` of a little-endian packed byte buffer: bit `k % 8` of byte
/// `k / 8`.  Bits past the end of the buffer read as zero.
pub open spec fn bit_of(bytes: Seq<u8>, k: nat) -> nat {
    if k / 8 < bytes.len() {
        ((bytes[(k / 8) as int] >> ((k % 8) as u8)) & 1) as nat
    } else {
        0
    }
}

/// The value of `n` consecutive bits starting at bit offset `k`,
/// least-significant bit first.
pub open spec fn bits_at(bytes: Seq<u8>, k: nat, n: nat) -> nat
    decreases n,
{
    if n == 0 {
        0
    } else {
        bit_of(bytes, k) + 2 * bits_at(bytes, (k + 1) as nat, (n - 1) as nat)
    }
}

proof fn lemma_bit_of_le_one(bytes: Seq<u8>, k: nat)
    ensures
        bit_of(bytes, k) <= 1,
{
    if k / 8 < bytes.len() {
        let b = bytes[(k / 8) as int];
        let o = (k % 8) as u8;
        assert((b >> o) & 1 <= 1) by (bit_vector);
    }
}

proof fn lemma_bits_at_bound(bytes: Seq<u8>, k: nat, n: nat)
    ensures
        bits_at(bytes, k, n) < pow2(n),
    decreases n,
{
    if n == 0 {
        assert(pow2(0) == 1) by {
            lemma2_to64();
        }
    } else {
        lemma_bit_of_le_one(bytes, k);
        lemma_bits_at_bound(bytes, (k + 1) as nat, (n - 1) as nat);
        lemma_pow2_unfold(n);
    }
}

proof fn lemma_bits_at_snoc(bytes: Seq<u8>, k: nat, n: nat)
    ensures
        bits_at(bytes, k, (n + 1) as nat) == bits_at(bytes, k, n) + bit_of(bytes, (k + n) as nat)
            * pow2(n),
    decreases n,
{
    if n == 0 {
        assert(pow2(0) == 1) by {
            lemma2_to64();
        }
        assert(bits_at(bytes, (k + 1) as nat, 0) == 0);
        assert(bits_at(bytes, k, 1) == bit_of(bytes, k) + 2 * bits_at(bytes, (k + 1) as nat, 0));
    } else {
        lemma_bits_at_snoc(bytes, (k + 1) as nat, (n - 1) as nat);
        lemma_pow2_unfold(n);
        let b = bit_of(bytes, (k + n) as nat);
        assert(b * pow2(n) == 2 * (b * pow2((n - 1) as nat))) by (nonlinear_arith)
            requires
                pow2(n) == 2 * pow2((n - 1) as nat),
        ;
    }
}

/// Two buffers that agree on bits `k .. k + n` hold the same field there.
proof fn lemma_bits_at_congruence(b1: Seq<u8>, b2: Seq<u8>, k: nat, n: nat)
    requires
        forall|t: nat| k <= t < k + n ==> bit_of(b1, t) == bit_of(b2, t),
    ensures
        bits_at(b1, k, n) == bits_at(b2, k, n),
    decreases n,
{
    if n > 0 {
        assert(bit_of(b1, k) == bit_of(b2, k));
        lemma_bits_at_congruence(b1, b2, (k + 1) as nat, (n - 1) as nat);
    }
}

proof fn lemma_bits_at_zero(bytes: Seq<u8>, k: nat, n: nat)
    requires
        forall|j: int| 0 <= j < bytes.len() ==> bytes[j] == 0,
    ensures
        bits_at(bytes, k, n) == 0,
    decreases n,
{
    if n > 0 {
        if k / 8 < bytes.len() {
            let o = (k % 8) as u8;
            assert((0u8 >> o) & 1 == 0) by (bit_vector);
        }
        lemma_bits_at_zero(bytes, (k + 1) as nat, (n - 1) as nat);
    }
}

/// Merging the lowest bit of `v` with the masked remainder shifted once.
proof fn lemma_bit_merge(v: u32, m: u32)
    by (bit_vector)
    requires
        m <= 0x7fffffff,
    ensures
        (v & 1) + 2 * ((v >> 1u32) & m) == v & ((2 * m + 1) as u32),
{
}

/// If bits `k .. k + n` of a buffer are the low `n` bits of `v`, the field
/// at `k` reads back as `v` masked to `n` bits.
proof fn lemma_bits_at_of_value(bytes: Seq<u8>, k: nat, n: nat, v: u32)
    requires
        n <= 32,
        forall|j: nat|
            j < n ==> #[trigger] bit_of(bytes, (k + j) as nat) == ((v >> (j as u32)) & 1) as nat,
    ensures
        bits_at(bytes, k, n) == v & (low_bits_mask(n) as u32),
    decreases n,
{
    lemma_pow2_pos(n);
    lemma2_to64();
    if n == 0 {
        assert(v & (low_bits_mask(0) as u32) == v & 0);
        assert(v & 0 == 0) by (bit_vector);
    } else {
        let v1 = v >> 1u32;
        assert forall|j: nat| j < (n - 1) as nat implies #[trigger] bit_of(bytes, ((k + 1) + j) as nat)
            == ((v1 >> (j as u32)) & 1) as nat by {
            let ju = j as u32;
            assert(bit_of(bytes, (k + (j + 1)) as nat) == ((v >> ((j + 1) as u32)) & 1) as nat);
            assert((v >> 1u32) >> ju == v >> ((ju + 1) as u32)) by (bit_vector)
                requires
                    ju < 32,
            ;
        }
        lemma_bits_at_of_value(bytes, (k + 1) as nat, (n - 1) as nat, v1);
        let m = low_bits_mask((n - 1) as nat) as u32;
        assert(low_bits_mask((n - 1) as nat) <= 0x7fffffff) by {
            vstd::bits::lemma_low_bits_mask_values();
            if n - 1 < 32 {
                assert(pow2((n - 1) as nat) <= pow2(31)) by {
                    if ((n - 1) as nat) < 31 {
                        vstd::arithmetic::power2::lemma_pow2_strictly_increases(
                            (n - 1) as nat,
                            31,
                        );
                    }
                }
            }
        }
        assert(bit_of(bytes, (k + 0) as nat) == ((v >> (0 as u32)) & 1) as nat);
        assert(bit_of(bytes, k) == ((v >> 0u32) & 1) as nat);
        assert(v >> 0u32 == v) by (bit_vector);
        lemma_bit_merge(v, m);
        assert(low_bits_mask(n) == 2 * low_bits_mask((n - 1) as nat) + 1) by {
            lemma_pow2_unfold(n);
            lemma_pow2_pos((n - 1) as nat);
        }
        assert(bits_at(bytes, k, n) == (v & 1) + 2 * (v1 & m));
        assert(bits_at(bytes, k, n) == v & (low_bits_mask(n) as u32));
    }
}

/// Updating one bit of one byte changes exactly that bit position of the
/// byte and leaves the others alone.
proof fn lemma_byte_bit_update(b: u8, off: u8, bitv: u8)
    by (bit_vector)
    requires
        off < 8,
        bitv <= 1,
    ensures
        forall|o2: u8|
            o2 < 8 && o2 != off ==> #[trigger] (((b & !(1u8 << off)) | (bitv << off)) >> o2) & 1
                == (b >> o2) & 1,
        (((b & !(1u8 << off)) | (bitv << off)) >> off) & 1 == bitv,
{
}

/// Shifting in one more bit above an accumulated value adds it at weight
/// `2^j`.
proof fn lemma_accumulate_bit(value: u32, bit: u32, j: u32)
    by (bit_vector)
    requires
        j < 32,
        bit <= 1,
        value < (1u32 << j),
    ensures
        value | (bit << j) == value + bit * (1u32 << j),
        value | (bit << j) < (1u32 << j) + (1u32 << j),
{
}

proof fn lemma_shl_is_pow2(j: u32)
    requires
        j < 32,
    ensures
        (1u32 << j) == pow2(j as nat),
{
    vstd::bits::lemma_u32_pow2_no_overflow(j as nat);
    vstd::bits::lemma_u32_shl_is_mul(1u32, j);
}

/// A store of `size` unsigned fields of `N` bits each, packed back to back
/// into a byte buffer with one spare byte at the end.
pub struct BitVec<const N: usize> {
    buf: Vec<u8>,
    size: usize,
}

impl<const N: usize> View for BitVec<N> {
    type V = Seq<u32>;

    open spec fn view(&self) -> Seq<u32> {
        Seq::new(
            self.spec_size(),
            |i: int| bits_at(self.bytes(), (N * i) as nat, N as nat) as u32,
        )
    }
}

impl<const N: usize> BitVec<N> {
    /// The raw bytes of the backing buffer.
    pub closed spec fn bytes(&self) -> Seq<u8> {
        self.buf@
    }

    pub closed spec fn spec_size(&self) -> nat {
        self.size as nat
    }

    /// Structural invariant: a valid field width and a buffer sized for
    /// `size` fields plus the spare byte.
    pub open spec fn wf(&self) -> bool {
        &&& 0 < N <= 32
        &&& self.spec_size() > 0
        &&& N * self.spec_size() + 15 <= usize::MAX
        &&& self.bytes().len() == (N * self.spec_size() + 7) / 8 + 1
    }

    /// A fresh store of `size` zeroed fields.
    pub fn new(size: usize) -> (r: Self)
        requires
            0 < N <= 32,
            size > 0,
            N * size + 15 <= usize::MAX,
        ensures
            r.wf(),
            r@.len() == size,
            forall|i: int| 0 <= i < size ==> r@[i] == 0,
    {
        let num_bytes = (N * size + 7) / 8 + 1;
        let mut buf: Vec<u8> = Vec::new();
        while buf.len() < num_bytes
            invariant
                buf.len() <= num_bytes,
                forall|j: int| 0 <= j < buf.len() ==> buf[j] == 0,
            decreases num_bytes - buf.len(),
        {
            buf.push(0);
        }
        let r = BitVec { buf, size };
        proof {
            assert forall|i: int| 0 <= i < size implies r@[i] == 0 by {
                lemma_bits_at_zero(r.bytes(), (N * i) as nat, N as nat);
            }
        }
        r
    }

    /// A store over a caller-supplied buffer, already laid out for `size`
    /// fields of `N` bits.
    pub fn with_buf_and_size(buf: Vec<u8>, size: usize) -> (r: Self)
        requires
            0 < N <= 32,
            size > 0,
            N * size + 15 <= usize::MAX,
            buf.len() == (N * size + 7) / 8 + 1,
        ensures
            r.wf(),
            r.bytes() == buf@,
            r@.len() == size,
    {
        BitVec { buf, size }
    }

    /// How many fields the store holds.
    pub fn size(&self) -> (r: usize)
        requires
            self.wf(),
        ensures
            r == self@.len(),
    {
        self.size
    }

    /// The backing buffer, spare byte included.
    pub fn buffer(&self) -> (r: &Vec<u8>)
        ensures
            r@ == self.bytes(),
    {
        &self.buf
    }

    /// Mask keeping the low `N` bits of a value.
    pub fn lsb_mask() -> (r: u32)
        requires
            0 < N <= 32,
        ensures
            r == low_bits_mask(N as nat) as u32,
            r == low_bits_mask(N as nat),
    {
        proof {
            vstd::bits::lemma_low_bits_mask_values();
        }
        if N == 32 {
            0xffff_ffffu32
        } else {
            proof {
                lemma_shl_is_pow2(N as u32);
                lemma_pow2_pos(N as nat);
                vstd::bits::lemma_u32_pow2_no_overflow(N as nat);
            }
            (1u32 << (N as u32)) - 1
        }
    }

    /// Every bit of field `index` lies inside the buffer, spare byte short.
    proof fn lemma_field_in_bounds(&self, index: usize, j: nat)
        requires
            self.wf(),
            index < self.spec_size(),
            j < N,
        ensures
            (N * index + j) / 8 < self.bytes().len() - 1,
            N * index + j < N * self.spec_size(),
    {
        let s = self.spec_size();
        assert(N * index + j < N * s) by (nonlinear_arith)
            requires
                index < s,
                j < N,
        ;
        assert((N * index + j) / 8 <= (N * s + 7) / 8 - 1);
    }

    /// Read field `index`.
    pub fn get(&self, index: usize) -> (r: u32)
        requires
            self.wf(),
            index < self@.len(),
        ensures
            r == self@[index as int],
            r <= low_bits_mask(N as nat),
    {
        proof {
            let s = self.spec_size();
            assert(N * index <= N * s) by (nonlinear_arith)
                requires
                    index < s,
                    N >= 0,
            ;
            assert(pow2(0) == 1) by {
                lemma2_to64();
            }
        }
        let base: usize = N * index;
        let mut value: u32 = 0;
        let mut j: usize = 0;
        while j < N
            invariant
                self.wf(),
                index < self.spec_size(),
                base == N * index,
                j <= N,
                value == bits_at(self.bytes(), base as nat, j as nat),
                value < pow2(j as nat),
            decreases N - j,
        {
            proof {
                self.lemma_field_in_bounds(index, j as nat);
            }
            let k = base + j;
            let byte = self.buf[k / 8];
            let off = (k % 8) as u8;
            let bit = (byte >> off) & 1;
            proof {
                assert((byte >> off) & 1 <= 1) by (bit_vector);
                assert(bit as nat == bit_of(self.bytes(), k as nat));
                lemma_shl_is_pow2(j as u32);
                lemma_accumulate_bit(value, bit as u32, j as u32);
                lemma_bits_at_snoc(self.bytes(), base as nat, j as nat);
                lemma_pow2_unfold((j + 1) as nat);
                assert((bit as u32) * pow2(j as nat) == bit_of(self.bytes(), k as nat) * pow2(
                    j as nat,
                ));
            }
            value = value | ((bit as u32) << (j as u32));
            j += 1;
        }
        proof {
            lemma_bits_at_bound(self.bytes(), base as nat, N as nat);
            lemma2_to64();
            if (N as nat) < 32 {
                vstd::arithmetic::power2::lemma_pow2_strictly_increases(N as nat, 32);
            }
            assert(value == self@[index as int]);
        }
        value
    }

    /// Write field `index`, keeping only the low `N` bits of `value`.
    pub fn set(&mut self, index: usize, value: u32)
        requires
            old(self).wf(),
            index < old(self)@.len(),
        ensures
            final(self).wf(),
            final(self)@ == old(self)@.update(
                index as int,
                value & (low_bits_mask(N as nat) as u32),
            ),
            final(self).bytes().len() == old(self).bytes().len(),
            forall|t: nat|
                t < N * index || t >= N * index + N ==> #[trigger] bit_of(final(self).bytes(), t)
                    == bit_of(old(self).bytes(), t),
            forall|t: nat|
                t < N ==> #[trigger] bit_of(final(self).bytes(), (N * index + t) as nat) == (((
                value & (low_bits_mask(N as nat) as u32)) >> (t as u32)) & 1) as nat,
    {
        let masked = value & Self::lsb_mask();
        proof {
            let s = self.spec_size();
            assert(N * index <= N * s) by (nonlinear_arith)
                requires
                    index < s,
                    N >= 0,
            ;
        }
        let base: usize = N * index;
        let mut j: usize = 0;
        while j < N
            invariant
                self.wf(),
                index < self.spec_size(),
                base == N * index,
                j <= N,
                self.size == old(self).size,
                self.bytes().len() == old(self).bytes().len(),
                forall|t: nat|
                    #![trigger bit_of(self.bytes(), t)]
                    if base <= t < base + j {
                        bit_of(self.bytes(), t) == ((masked >> ((t - base) as u32)) & 1) as nat
                    } else {
                        bit_of(self.bytes(), t) == bit_of(old(self).bytes(), t)
                    },
            decreases N - j,
        {
            proof {
                self.lemma_field_in_bounds(index, j as nat);
            }
            let k = base + j;
            let bi = k / 8;
            let off = (k % 8) as u8;
            proof {
                let m = masked;
                let ju = j as u32;
                assert((m >> ju) & 1 <= 1) by (bit_vector);
            }
            let bitv = ((masked >> (j as u32)) & 1) as u8;
            let b = self.buf[bi];
            let nb = (b & !(1u8 << off)) | (bitv << off);
            let ghost prev = self.bytes();
            self.buf.set(bi, nb);
            proof {
                lemma_byte_bit_update(b, off, bitv);
                assert forall|t: nat| true implies #[trigger] bit_of(self.bytes(), t) == (if t == k
                    as nat {
                    bitv as nat
                } else {
                    bit_of(prev, t)
                }) by {
                    if t / 8 < self.bytes().len() {
                        if t / 8 == bi as nat {
                            let o2 = (t % 8) as u8;
                            if t == k as nat {
                                assert(o2 == off);
                            } else {
                                assert(t / 8 == k as nat / 8 && t % 8 != k as nat % 8);
                                assert(o2 != off);
                            }
                        }
                    }
                }
            }
            j += 1;
        }
        proof {
            let mask = low_bits_mask(N as nat) as u32;
            let old_view = old(self)@;
            let new_view = self@;
            assert(masked == value & mask);
            assert forall|t: nat| t < N implies #[trigger] bit_of(self.bytes(), (base + t) as nat)
                == ((masked >> (t as u32)) & 1) as nat by {}
            assert(bits_at(self.bytes(), base as nat, N as nat) == masked & mask) by {
                lemma_bits_at_of_value(self.bytes(), base as nat, N as nat, masked);
            }
            assert(masked & mask == masked) by {
                let m32 = mask;
                assert((value & m32) & m32 == value & m32) by (bit_vector);
            }
            assert forall|i: int| 0 <= i < new_view.len() && i != index implies new_view[i]
                == old_view[i] by {
                self.lemma_other_field_unchanged(old(self), index, i);
            }
            assert(new_view[index as int] == masked);
            assert(new_view =~= old_view.update(index as int, masked));
            assert forall|t: nat| t < N * index || t >= N * index + N implies #[trigger] bit_of(
                self.bytes(),
                t,
            ) == bit_of(old(self).bytes(), t) by {}
            assert forall|t: nat| t < N implies #[trigger] bit_of(
                self.bytes(),
                (N * index + t) as nat,
            ) == ((masked >> (t as u32)) & 1) as nat by {
                let t2 = (N * index + t) as nat;
                assert(base <= t2 < base + N);
                assert(bit_of(self.bytes(), t2) == ((masked >> ((t2 - base) as u32)) & 1) as nat);
            }
        }
    }

    /// A write to field `index` leaves every other field unchanged.
    proof fn lemma_other_field_unchanged(&self, prev: &Self, index: usize, i: int)
        requires
            self.wf(),
            prev.wf(),
            self.spec_size() == prev.spec_size(),
            index < self.spec_size(),
            0 <= i < self.spec_size(),
            i != index,
            forall|t: nat|
                #![trigger bit_of(self.bytes(), t)]
                t < N * index || t >= N * index + N ==> bit_of(self.bytes(), t) == bit_of(
                    prev.bytes(),
                    t,
                ),
        ensures
            self@[i] == prev@[i],
    {
        let n = N as nat;
        assert forall|t: nat| N * i <= t < N * i + n implies bit_of(self.bytes(), t) == bit_of(
            prev.bytes(),
            t,
        ) by {
            if i < index {
                assert(N * i + n <= N * index) by (nonlinear_arith)
                    requires
                        i < index,
                        n == N,
                ;
            } else {
                assert(N * index + n <= N * i) by (nonlinear_arith)
                    requires
                        index < i,
                        n == N,
                ;
            }
        }
        lemma_bits_at_congruence(self.bytes(), prev.bytes(), (N * i) as nat, n);
    }

    /// Packed-array round trip: for every valid width, size and index,
    /// writing a field and reading it back yields the value masked to
    /// the field width, boundary-straddling fields included.  Stated
    /// over the views that `set` and `get` are specified against.
    pub proof fn lemma_set_get_round_trip(pre: Self, post: Self, index: int, value: u32)
        requires
            pre.wf(),
            0 <= index < pre@.len(),
            post@ == pre@.update(index, value & (low_bits_mask(N as nat) as u32)),
        ensures
            post@[index] == value & (low_bits_mask(N as nat) as u32),
            forall|i: int| 0 <= i < pre@.len() && i != index ==> post@[i] == pre@[i],
    {
    }

    /// Every stored field fits in `N` bits.
    pub proof fn lemma_view_bounded(&self)
        requires
            self.wf(),
        ensures
            forall|i: int| 0 <= i < self@.len() ==> #[trigger] self@[i] <= low_bits_mask(N as nat),
    {
        lemma2_to64();
        if (N as nat) < 32 {
            vstd::arithmetic::power2::lemma_pow2_strictly_increases(N as nat, 32);
        }
        assert forall|i: int| 0 <= i < self@.len() implies #[trigger] self@[i] <= low_bits_mask(
            N as nat,
        ) by {
            lemma_bits_at_bound(self.bytes(), (N * i) as nat, N as nat);
        }
    }

    /// All field values, in index order.
    pub fn iter(&self) -> (r: Vec<u32>)
        requires
            self.wf(),
        ensures
            r@ == self@,
    {
        let mut out: Vec<u32> = Vec::new();
        let mut i: usize = 0;
        while i < self.size
            invariant
                self.wf(),
                i <= self.spec_size(),
                out@.len() == i,
                forall|t: int| 0 <= t < i ==> out@[t] == self@[t],
            decreases self.spec_size() - i,
        {
            out.push(self.get(i));
            i += 1;
        }
        proof {
            assert(out@ =~= self@);
        }
        out
    }
}

/// Masking a value already within the mask leaves it unchanged.
pub proof fn lemma_mask_noop(v: u32, n: nat)
    requires
        n <= 32,
        v <= low_bits_mask(n),
    ensures
        v & (low_bits_mask(n) as u32) == v,
{
    vstd::bits::lemma_low_bits_mask_values();
    if n == 32 {
        assert(v & 0xffffffffu32 == v) by (bit_vector);
    } else {
        vstd::bits::lemma_u32_low_bits_mask_is_mod(v, n);
        lemma_pow2_pos(n);
        vstd::bits::lemma_u32_pow2_no_overflow(n);
        assert(v < pow2(n) as u32);
        vstd::arithmetic::div_mod::lemma_small_mod(v as nat, pow2(n));
        assert(v % (pow2(n) as u32) == v);
    }
}

/// Unbounded left shift: shifting by the full width or more yields zero
/// instead of being rejected.
pub trait UnboundedShift: Sized {
    spec fn ushl_spec(self, rhs: u32) -> Self;

    fn ushl(self, rhs: u32) -> (r: Self)
        ensures
            r == self.ushl_spec(rhs),
    ;
}

impl UnboundedShift for u8 {
    open spec fn ushl_spec(self, rhs: u32) -> u8 {
        if rhs < 8 {
            self << rhs
        } else {
            0
        }
    }

    fn ushl(self, rhs: u32) -> (r: u8) {
        if rhs < 8 {
            self << rhs
        } else {
            0
        }
    }
}

impl UnboundedShift for u16 {
    open spec fn ushl_spec(self, rhs: u32) -> u16 {
        if rhs < 16 {
            self << rhs
        } else {
            0
        }
    }

    fn ushl(self, rhs: u32) -> (r: u16) {
        if rhs < 16 {
            self << rhs
        } else {
            0
        }
    }
}

impl UnboundedShift for u32 {
    open spec fn ushl_spec(self, rhs: u32) -> u32 {
        if rhs < 32 {
            self << rhs
        } else {
            0
        }
    }

    fn ushl(self, rhs: u32) -> (r: u32) {
        if rhs < 32 {
            self << rhs
        } else {
            0
        }
    }
}

impl UnboundedShift for u64 {
    open spec fn ushl_spec(self, rhs: u32) -> u64 {
        if rhs < 64 {
            self << rhs
        } else {
            0
        }
    }

    fn ushl(self, rhs: u32) -> (r: u64) {
        if rhs < 64 {
            self << rhs
        } else {
            0
        }
    }
}

impl UnboundedShift for u128 {
    open spec fn ushl_spec(self, rhs: u32) -> u128 {
        if rhs < 128 {
            self << rhs
        } else {
            0
        }
    }

    fn ushl(self, rhs: u32) -> (r: u128) {
        if rhs < 128 {
            self << rhs
        } else {
            0
        }
    }
}

impl UnboundedShift for usize {
    open spec fn ushl_spec(self, rhs: u32) -> usize {
        if rhs < usize::BITS {
            self << rhs
        } else {
            0
        }
    }

    fn ushl(self, rhs: u32) -> (r: usize) {
        if rhs < usize::BITS {
            self << rhs
        } else {
            0
        }
    }
}

} // verus!
