//! The bit-granular sub-stream: an append-only writer and a sequential
//! reader that pack values at bit granularity, least-significant-bit first
//! within each field, across byte boundaries.
//!
//! The model of both sides is a flat sequence of booleans: `stream_bits`
//! flattens a byte buffer into its bits, `val_bits` gives the low `n` bits of
//! a value. The writer's view is the sequence of bits written so far; the
//! unwritten bits of its last byte are always zero until explicitly written.

use vstd::prelude::*;

verus! {

/// Bit `i` of `v`, counting from the least significant end.
pub open spec fn nth_bit(v: u64, i: u64) -> bool {
    (v >> i) & 1 == 1
}

/// `v` fits in `n` bits.
pub open spec fn fits(v: u64, n: nat) -> bool {
    n < 64 ==> v >> (n as u64) == 0
}

/// The low `n` bits of `v`, least significant first.
pub open spec fn val_bits(v: u64, n: nat) -> Seq<bool> {
    Seq::new(n, |i: int| nth_bit(v, i as u64))
}

/// All bits of a byte buffer, flattened: bit `8*k + j` is bit `j` of byte `k`.
pub open spec fn stream_bits(bytes: Seq<u8>) -> Seq<bool> {
    Seq::new(bytes.len() * 8, |i: int| nth_bit(bytes[i / 8] as u64, (i % 8) as u64))
}

/// The value carried by a bit sequence, least significant bit first.
pub open spec fn bits_val(s: Seq<bool>) -> nat
    decreases s.len(),
{
    if s.len() == 0 {
        0
    } else {
        (if s[0] {
            1nat
        } else {
            0nat
        }) + 2 * bits_val(s.drop_first())
    }
}

/// A value fitting `n` bits is recovered from its own low `n` bits.
pub proof fn lemma_bits_val_of_val_bits(v: u64, n: nat)
    requires
        n <= 64,
        fits(v, n),
    ensures
        bits_val(val_bits(v, n)) == v,
    decreases n,
{
    if n == 0 {
        assert(v == 0) by (bit_vector)
            requires
                v >> 0u64 == 0,
        ;
    } else {
        let m = (n - 1) as nat;
        let mu = (n - 1) as u64;
        assert forall|i: int| 0 <= i < m implies val_bits(v, n).drop_first()[i] == val_bits(
            v >> 1u64,
            m,
        )[i] by {
            let iu = i as u64;
            assert(val_bits(v, n).drop_first()[i] == val_bits(v, n)[i + 1]);
            assert(val_bits(v, n)[i + 1] == nth_bit(v, (i + 1) as u64));
            assert(val_bits(v >> 1u64, m)[i] == nth_bit(v >> 1u64, iu));
            assert(nth_bit(v >> 1u64, iu) == nth_bit(v, (iu + 1) as u64)) by (bit_vector)
                requires
                    iu < 63,
            ;
        }
        assert(val_bits(v, n).drop_first() =~= val_bits(v >> 1u64, m));
        assert((mu < 64 ==> (v >> 1u64) >> mu == 0)) by (bit_vector)
            requires
                mu <= 63,
                mu < 63 ==> v >> ((mu + 1) as u64) == 0,
        ;
        lemma_bits_val_of_val_bits(v >> 1u64, m);
        assert(val_bits(v, n)[0] == nth_bit(v, 0));
        assert((if nth_bit(v, 0) {
            1u64
        } else {
            0u64
        }) + 2 * (v >> 1u64) == v) by (bit_vector);
    }
}

/// A value fitting `n < 64` bits is below `pow2(n)`, and conversely.
pub proof fn lemma_fits_is_bound(v: u64, n: nat)
    requires
        n < 64,
    ensures
        fits(v, n) <==> (v as nat) < vstd::arithmetic::power2::pow2(n),
{
    let nu = n as u64;
    vstd::bits::lemma_u64_shr_is_div(v, nu);
    vstd::arithmetic::power2::lemma_pow2_pos(n);
    let p = vstd::arithmetic::power2::pow2(n) as int;
    assert(v >> nu == v as nat / vstd::arithmetic::power2::pow2(n));
    assert((v as int / p == 0) <==> (v as int) < p) by (nonlinear_arith)
        requires
            p > 0,
            v >= 0,
    ;
}

/// Two values with the same low `n` bits, both fitting in `n` bits, are equal.
pub proof fn lemma_bits_pin_value(a: u64, b: u64, n: nat)
    requires
        n <= 64,
        fits(a, n),
        fits(b, n),
        val_bits(a, n) == val_bits(b, n),
    ensures
        a == b,
    decreases n,
{
    if n == 0 {
        assert(a == 0 && b == 0) by (bit_vector)
            requires
                a >> 0u64 == 0,
                b >> 0u64 == 0,
        ;
    } else {
        assert(val_bits(a, n)[0] == nth_bit(a, 0) && val_bits(b, n)[0] == nth_bit(b, 0));
        assert(nth_bit(a, 0) == nth_bit(b, 0));
        let m = (n - 1) as nat;
        assert forall|i: int| 0 <= i < m implies val_bits(a >> 1u64, m)[i] == val_bits(
            b >> 1u64,
            m,
        )[i] by {
            let iu = i as u64;
            assert(val_bits(a, n)[i + 1] == val_bits(b, n)[i + 1]);
            assert(val_bits(a, n)[i + 1] == nth_bit(a, (i + 1) as u64));
            assert(val_bits(b, n)[i + 1] == nth_bit(b, (i + 1) as u64));
            assert(nth_bit(a, (i + 1) as u64) == nth_bit(b, (i + 1) as u64));
            assert((i + 1) as u64 == (iu + 1) as u64);
            assert(nth_bit(a >> 1u64, iu) == nth_bit(b >> 1u64, iu)) by (bit_vector)
                requires
                    iu < 63,
                    nth_bit(a, (iu + 1) as u64) == nth_bit(b, (iu + 1) as u64),
            ;
            assert(val_bits(a >> 1u64, m)[i] == nth_bit(a >> 1u64, iu));
            assert(val_bits(b >> 1u64, m)[i] == nth_bit(b >> 1u64, iu));
        }
        assert(val_bits(a >> 1u64, m) =~= val_bits(b >> 1u64, m));
        let mu = (n - 1) as u64;
        assert((mu < 64 ==> (a >> 1u64) >> mu == 0) && (mu < 64 ==> (b >> 1u64) >> mu == 0))
            by (bit_vector)
            requires
                mu <= 63,
                mu < 63 ==> a >> ((mu + 1) as u64) == 0,
                mu < 63 ==> b >> ((mu + 1) as u64) == 0,
        ;
        lemma_bits_pin_value(a >> 1u64, b >> 1u64, m);
        assert(a == b) by (bit_vector)
            requires
                a >> 1u64 == b >> 1u64,
                nth_bit(a, 0) == nth_bit(b, 0),
        ;
    }
}

/// The all-zero bit pattern belongs to the value zero alone.
pub proof fn lemma_zero_bits(n: nat)
    requires
        n <= 64,
    ensures
        val_bits(0, n) =~= Seq::new(n, |i: int| false),
{
    assert(forall|i: u64| i < 64 ==> !(#[trigger] nth_bit(0, i))) by (bit_vector);
}

/// The low `n` bits of `v` are the low `k` bits followed by the low `n - k`
/// bits of `v >> k`.
pub proof fn lemma_val_bits_split(v: u64, k: u64, n: nat)
    requires
        1 <= k < n <= 64,
    ensures
        val_bits(v, n) =~= val_bits(v, k as nat) + val_bits(v >> k, (n - k as int) as nat),
{
    assert(forall|i: u64| k <= i < 64 ==> #[trigger] nth_bit(v, i) == nth_bit(v >> k, (i - k) as u64))
        by (bit_vector)
        requires
            k < 64,
    ;
}

/// How OR-ing a shifted field into a byte with free top bits places each bit.
proof fn lemma_byte_write(b0: u8, b1: u8, v: u64, off: u64, n: u64)
    by (bit_vector)
    requires
        off < 8,
        1 <= n,
        off + n <= 8,
        (b0 as u64) >> off == 0,
        v >> n == 0,
        b1 == b0 | ((v << off) as u8),
    ensures
        forall|i: u64| i < off ==> #[trigger] nth_bit(b1 as u64, i) == nth_bit(b0 as u64, i),
        forall|i: u64|
            off <= i < off + n ==> #[trigger] nth_bit(b1 as u64, i) == nth_bit(v, (i - off) as u64),
        (b1 as u64) >> (off + n) == 0,
{
}

/// How masking then shifting extracts a bit field from a byte.
proof fn lemma_byte_read(b: u8, w: u64, off: u64, n: u64, clear: u64)
    by (bit_vector)
    requires
        off < 8,
        1 <= n,
        off + n + clear == 8,
        w == ((b as u64) & (0xffu64 >> clear)) >> off,
    ensures
        w >> n == 0,
        forall|i: u64| i < n ==> #[trigger] nth_bit(w, i) == nth_bit(b as u64, (off + i) as u64),
{
}

/// How OR-ing a shifted high part onto a low part combines their bits.
proof fn lemma_combine(lo: u64, hi: u64, k: u64, n: u64, r: u64)
    by (bit_vector)
    requires
        1 <= k < n <= 64,
        lo >> k == 0,
        n < 64 ==> hi >> ((n - k) as u64) == 0,
        r == lo | (hi << k),
    ensures
        n < 64 ==> r >> n == 0,
        forall|i: u64| i < k ==> #[trigger] nth_bit(r, i) == nth_bit(lo, i),
        forall|i: u64| k <= i < n ==> #[trigger] nth_bit(r, i) == nth_bit(hi, (i - k) as u64),
{
}

/// Bit `8*bo + k` of a flattened buffer is bit `k` of byte `bo`.
pub proof fn lemma_stream_bits_index(bytes: Seq<u8>, bo: int, k: int)
    requires
        0 <= bo < bytes.len(),
        0 <= k < 8,
    ensures
        stream_bits(bytes)[8 * bo + k] == nth_bit(bytes[bo] as u64, k as u64),
{
    assert((8 * bo + k) / 8 == bo && (8 * bo + k) % 8 == k) by (nonlinear_arith)
        requires
            0 <= k < 8,
            0 <= bo,
    ;
}

/// Zeroes the top `bits` bits of a byte-sized value.
pub fn zero_top_byte_bits(v: usize, bits: usize) -> (r: usize)
    requires
        bits < 8,
    ensures
        r == v & (0xff as usize >> bits),
{
    let mask = 0xff_usize >> bits;
    v & mask
}

/// Bit-granular append-only writer. Owns a growing byte buffer and a
/// bit-offset cursor into the next free bit of the last byte.
#[derive(Clone, Debug, PartialEq)]
pub struct Writer {
    pub bytes: Vec<u8>,
    pub bit_offset: usize,
}

impl View for Writer {
    type V = Seq<bool>;

    /// The bits written so far, in order.
    open spec fn view(&self) -> Seq<bool> {
        stream_bits(self.bytes@).take(self.bit_len())
    }
}

impl Writer {
    pub open spec fn spec_bytes(self) -> Seq<u8> {
        self.bytes@
    }

    /// Number of bits written so far.
    pub open spec fn bit_len(self) -> int {
        if self.bit_offset == 0 {
            8 * (self.bytes@.len() as int)
        } else {
            8 * (self.bytes@.len() - 1) + self.bit_offset
        }
    }

    /// Buffer length is `ceil(bits written / 8)` and the unwritten bits of
    /// the last byte are zero.
    pub open spec fn wf(self) -> bool {
        &&& self.bit_offset < 8
        &&& self.bit_offset != 0 ==> self.bytes@.len() >= 1 && (self.bytes@.last() as u64) >> (
        self.bit_offset as u64) == 0
    }

    /// The whole buffer carries the written bits then zero padding up to the
    /// last byte boundary.
    pub proof fn lemma_padding(self)
        requires
            self.wf(),
        ensures
            8 * self.bytes@.len() - 8 < self.bit_len() <= 8 * self.bytes@.len()
                || self.bytes@.len() == 0,
            forall|j: int|
                self.bit_len() <= j < 8 * self.bytes@.len() ==> !(#[trigger] stream_bits(
                    self.bytes@,
                )[j]),
    {
        if self.bit_offset != 0 {
            let off = self.bit_offset as u64;
            let b = self.bytes@.last();
            assert(forall|i: u64| off <= i < 8 ==> !(#[trigger] nth_bit(b as u64, i))) by (bit_vector)
                requires
                    off < 8,
                    (b as u64) >> off == 0,
            ;
            let base = 8 * (self.bytes@.len() - 1);
            assert forall|j: int| self.bit_len() <= j < 8 * self.bytes@.len() implies !(
            #[trigger] stream_bits(self.bytes@)[j]) by {
                lemma_stream_bits_index(self.bytes@, self.bytes@.len() - 1, j - base);
            }
        }
    }

    /// Starts from the given buffer, whose bytes count as already written.
    pub fn new(bytes: Vec<u8>) -> (r: Self)
        ensures
            r.wf(),
            r@ == stream_bits(bytes@),
            r.spec_bytes() == bytes@,
    {
        let r = Self { bytes, bit_offset: 0 };
        proof {
            assert(r@ =~= stream_bits(r.bytes@));
        }
        r
    }

    /// Free bits remaining in the last byte.
    #[must_use]
    fn byte_bits_free(&self) -> (r: usize)
        requires
            self.bit_offset < 8,
        ensures
            r == 8 - self.bit_offset,
    {
        8 - self.bit_offset
    }

    /// OR the low bits of `v`, shifted to the cursor, into the last byte.
    fn write_into_last_byte(&mut self, v: usize)
        requires
            old(self).bytes@.len() >= 1,
            old(self).bit_offset < 8,
        ensures
            final(self).bit_offset == old(self).bit_offset,
            final(self).bytes@ == old(self).bytes@.update(
                old(self).bytes@.len() - 1,
                old(self).bytes@.last() | (((v << old(self).bit_offset) as u8)),
            ),
    {
        let i = self.bytes.len() - 1;
        let b = self.bytes[i];
        self.bytes[i] = b | ((v << self.bit_offset) as u8);
    }

    /// Append the low `bits` bits of `v`, least significant first.
    pub fn write(&mut self, bits: usize, v: u64)
        requires
            old(self).wf(),
            1 <= bits <= 64,
            fits(v, bits as nat),
        ensures
            final(self).wf(),
            final(self)@ == old(self)@ + val_bits(v, bits as nat),
        decreases bits,
    {
        let ghost pre = *self;
        if self.bit_offset == 0 {
            self.bytes.push(0);
        }
        let ghost mid = *self;
        let ghost len = self.bytes@.len();
        let ghost off = self.bit_offset as u64;
        proof {
            // The pushed or existing last byte has its top bits free.
            assert((mid.bytes@.last() as u64) >> off == 0) by {
                if pre.bit_offset == 0 {
                    assert(mid.bytes@.last() == 0);
                    assert((0u64 >> 0u64) == 0) by (bit_vector);
                }
            }
            // Bits below the cursor agree with the old view.
            assert(pre.bit_len() == 8 * (len - 1) + off);
            assert(forall|k: int| 0 <= k < len - 1 ==> #[trigger] mid.bytes@[k] == pre.bytes@[k]);
        }
        let free = self.byte_bits_free();
        if bits <= free {
            let to_write = bits;
            // appending v to the bit array
            self.write_into_last_byte(v as usize);
            // increment offsets
            if to_write == free {
                self.bit_offset = 0;
            } else {
                self.bit_offset = self.bit_offset + to_write;
            }
            proof {
                let b0 = mid.bytes@.last();
                let b1 = self.bytes@.last();
                let n = bits as u64;
                let offu: usize = mid.bit_offset;
                assert(((v as usize) << offu) as u8 == (v << off) as u8) by (bit_vector)
                    requires
                        off == offu as u64,
                        off < 8,
                ;
                assert(((v as usize) << mid.bit_offset) as u8 == (v << off) as u8);
                assert(b1 == b0 | ((v << off) as u8));
                lemma_byte_write(b0, b1, v, off, n);
                self.lemma_write_view_eq(pre, mid, v, bits as nat);
            }
        } else {
            let to_write = free;
            let clear = self.bit_offset;  // 8 - free
            // zeroing top `clear` bits and appending result to the bit array
            self.write_into_last_byte(zero_top_byte_bits((v & 0xff) as usize, clear));
            // increment offsets
            self.bit_offset = 0;
            let ghost half = *self;
            proof {
                let b0 = mid.bytes@.last();
                let b1 = half.bytes@.last();
                let n = (8 - off) as u64;
                let m = (v & 0xff) as usize;
                let w = v & ((0xff as u64) >> off);
                assert(((m & (0xff as usize >> clear)) << clear) as u8 == (w << off) as u8
                    && w >> n == 0 && (forall|i: u64|
                    i < n ==> #[trigger] nth_bit(w, i) == nth_bit(v, i))) by (bit_vector)
                    requires
                        off == clear as u64,
                        off < 8,
                        n == 8 - off,
                        m == (v & 0xff) as usize,
                        w == v & ((0xff as u64) >> off),
                ;
                assert(b1 == b0 | ((w << off) as u8));
                lemma_byte_write(b0, b1, w, off, n);
                assert(val_bits(w, n as nat) =~= val_bits(v, n as nat));
                half.lemma_write_view_eq(pre, mid, w, n as nat);
            }
            proof {
                let nb = bits as u64;
                let rem = (bits - to_write) as u64;
                assert(rem < 64 ==> (v >> to_write) >> rem == 0) by (bit_vector)
                    requires
                        1 <= to_write <= 8,
                        to_write < nb <= 64,
                        rem == nb - to_write,
                        nb < 64 ==> v >> nb == 0,
                ;
            }
            self.write(bits - to_write, v >> to_write);
            proof {
                lemma_val_bits_split(v, (8 - off) as u64, bits as nat);
                assert(self@ =~= pre@ + val_bits(v, bits as nat));
            }
        }
    }

    /// After OR-ing `n` bits of `w` into the last byte at offset `off`, the
    /// view is the old view extended by those bits.
    proof fn lemma_write_view_eq(self, pre: Writer, mid: Writer, w: u64, n: nat)
        requires
            pre.wf(),
            1 <= n,
            mid.bytes@.len() >= 1,
            mid.bit_offset < 8,
            mid.bit_offset as int + n <= 8,
            pre.bit_len() == 8 * (mid.bytes@.len() - 1) + mid.bit_offset,
            pre@ == stream_bits(pre.bytes@).take(pre.bit_len()),
            forall|k: int|
                0 <= k < mid.bytes@.len() - 1 ==> #[trigger] mid.bytes@[k] == pre.bytes@[k],
            self.bytes@.len() == mid.bytes@.len(),
            forall|k: int|
                0 <= k < mid.bytes@.len() - 1 ==> #[trigger] self.bytes@[k] == mid.bytes@[k],
            forall|i: u64|
                i < mid.bit_offset as u64 ==> #[trigger] nth_bit(self.bytes@.last() as u64, i)
                    == nth_bit(mid.bytes@.last() as u64, i),
            forall|i: u64|
                mid.bit_offset as u64 <= i < mid.bit_offset as u64 + n ==> #[trigger] nth_bit(
                    self.bytes@.last() as u64,
                    i,
                ) == nth_bit(w, (i - mid.bit_offset as u64) as u64),
            (self.bytes@.last() as u64) >> (mid.bit_offset as u64 + n) as u64 == 0,
            mid.bit_offset == 0 ==> (mid.bytes@.last() as u64) == 0,
            mid.bit_offset != 0 ==> mid.bytes@ == pre.bytes@,
            self.bit_len() == pre.bit_len() + n,
            self.bit_offset < 8,
            self.bit_offset != 0 ==> self.bit_offset as int == mid.bit_offset + n,
        ensures
            self.wf(),
            self@ == pre@ + val_bits(w, n),
    {
        let len = self.bytes@.len();
        let base = 8 * (len - 1);
        let off = mid.bit_offset as int;
        assert(self.wf()) by {
            if self.bit_offset != 0 {
                let k = self.bit_offset as u64;
                let b = self.bytes@.last() as u64;
                let t = (off + n) as u64;
                assert(b >> k == 0) by (bit_vector)
                    requires
                        b >> t == 0,
                        t <= k < 64,
                ;
            }
        }
        assert forall|j: int| 0 <= j < self.bit_len() implies stream_bits(self.bytes@)[j] == (pre@
            + val_bits(w, n))[j] by {
            if j < base {
                assert((j / 8) < len - 1 && j / 8 >= 0 && j % 8 < 8 && j % 8 >= 0)
                    by (nonlinear_arith)
                    requires
                        0 <= j < 8 * (len - 1),
                ;
                assert(stream_bits(self.bytes@)[j] == stream_bits(pre.bytes@)[j]);
                assert(stream_bits(pre.bytes@)[j] == pre@[j]);
            } else {
                let i = (j - base) as u64;
                lemma_stream_bits_index(self.bytes@, len - 1, j - base);
                assert(self.bytes@.last() == self.bytes@[len - 1]);
                assert(stream_bits(self.bytes@)[j] == nth_bit(self.bytes@.last() as u64, i));
                if j < base + off {
                    // below the cursor: unchanged bits of the old last byte
                    assert(mid.bit_offset != 0);
                    assert(nth_bit(self.bytes@.last() as u64, i) == nth_bit(
                        mid.bytes@.last() as u64,
                        i,
                    ));
                    lemma_stream_bits_index(pre.bytes@, len - 1, j - base);
                    assert(pre.bytes@.last() == pre.bytes@[len - 1]);
                    assert(pre@[j] == stream_bits(pre.bytes@)[j]);
                } else {
                    assert(nth_bit(self.bytes@.last() as u64, i) == nth_bit(
                        w,
                        (i - mid.bit_offset as u64) as u64,
                    ));
                    assert((pre@ + val_bits(w, n))[j] == val_bits(w, n)[j - pre.bit_len()]);
                }
            }
        }
        assert(self@ =~= pre@ + val_bits(w, n));
    }

    /// The raw bytes written so far, padding bits zeroed.
    pub fn view_bytes(&self) -> (r: &[u8])
        ensures
            r@ == self.spec_bytes(),
    {
        self.bytes.as_slice()
    }
}

/// Bit-granular sequential reader over a borrowed byte slice. Tracks a
/// monotonically increasing cursor of consumed bits.
#[derive(Clone, Debug, PartialEq)]
pub struct Reader<'a> {
    pub bytes: &'a [u8],
    pub byte_offset: usize,
    pub bit_offset: usize,
}

impl<'a> Reader<'a> {
    pub open spec fn spec_bytes(self) -> Seq<u8> {
        self.bytes@
    }

    /// All bits of the underlying buffer.
    pub open spec fn all_bits(self) -> Seq<bool> {
        stream_bits(self.bytes@)
    }

    /// Bits consumed so far.
    pub open spec fn cursor(self) -> int {
        8 * self.byte_offset + self.bit_offset
    }

    /// The cursor stays inside the buffer; the buffer's bit count fits a
    /// `usize`.
    pub open spec fn wf(self) -> bool {
        &&& self.bit_offset < 8
        &&& self.byte_offset <= self.bytes@.len()
        &&& self.bit_offset != 0 ==> self.byte_offset < self.bytes@.len()
        &&& self.bytes@.len() * 8 <= usize::MAX
    }

    /// Begins at the first bit of the buffer.
    pub fn new(bytes: &'a [u8]) -> (r: Self)
        requires
            bytes@.len() * 8 <= usize::MAX,
        ensures
            r.wf(),
            r.spec_bytes() == bytes@,
            r.cursor() == 0,
    {
        Self { bytes, byte_offset: 0, bit_offset: 0 }
    }

    /// Free bits remaining in the current byte.
    pub fn byte_bits_free(&self) -> (r: usize)
        requires
            self.bit_offset < 8,
        ensures
            r == 8 - self.bit_offset,
    {
        8 - self.bit_offset
    }

    /// Read the next `bits` bits as a value, least significant first.
    /// Reading zero bits returns zero and leaves the cursor untouched.
    pub fn read(&mut self, bits: usize) -> (r: u64)
        requires
            old(self).wf(),
            bits <= 64,
            old(self).cursor() + bits <= 8 * old(self).spec_bytes().len(),
        ensures
            final(self).wf(),
            final(self).spec_bytes() == old(self).spec_bytes(),
            final(self).cursor() == old(self).cursor() + bits,
            fits(r, bits as nat),
            val_bits(r, bits as nat) == old(self).all_bits().subrange(
                old(self).cursor(),
                old(self).cursor() + bits,
            ),
        decreases bits,
    {
        // perform all the checks in the same function to make CPU branch
        // predictor work better
        if bits == 0 {
            proof {
                assert(0u64 >> 0u64 == 0) by (bit_vector);
                assert(val_bits(0, 0) =~= old(self).all_bits().subrange(
                    old(self).cursor(),
                    old(self).cursor(),
                ));
            }
            return 0;
        }

        let ghost pre = *self;
        let mut v: u64;

        let b = *vstd::slice::slice_index_get(self.bytes, self.byte_offset);
        let ghost off = self.bit_offset as u64;
        let free = self.byte_bits_free();
        if bits <= free {
            let to_read = bits;
            let clear = 8 - (self.bit_offset + to_read);
            let masked = zero_top_byte_bits(b as usize, clear);
            let low: usize = masked >> self.bit_offset;
            v = low as u64;
            // increment offsets
            if to_read == free {
                self.bit_offset = 0;
                self.byte_offset = self.byte_offset + 1;
            } else {
                self.bit_offset = self.bit_offset + to_read;
            }
            proof {
                let n = bits as u64;
                let c = clear as u64;
                assert(low as u64 == ((b as u64) & (0xffu64 >> c)) >> off) by (bit_vector)
                    requires
                        low == ((b as usize) & (0xff as usize >> (c as usize))) >> (off as usize),
                        c == clear as u64,
                        c == 8 - (off + n),
                        off < 8,
                        1 <= n,
                        off + n <= 8,
                        clear < 8,
                ;
                lemma_byte_read(b, v, off, n, c);
                self.lemma_read_segment(pre, v, bits as nat, b);
            }
        } else {
            let to_read = free;
            let low: usize = (b as usize) >> self.bit_offset;
            v = low as u64;
            // increment offsets
            self.bit_offset = 0;
            self.byte_offset = self.byte_offset + 1;
            let ghost half = *self;
            proof {
                let n = (8 - off) as u64;
                assert(low as u64 == ((b as u64) & (0xffu64 >> 0u64)) >> off) by (bit_vector)
                    requires
                        low == (b as usize) >> (off as usize),
                        off < 8,
                ;
                lemma_byte_read(b, v, off, n, 0);
                half.lemma_read_segment(pre, v, n as nat, b);
            }
            // read rest
            let rest = self.read(bits - to_read);
            let ghost lo = v;
            v = v | (rest << to_read);
            proof {
                let k = (8 - off) as u64;
                let n = bits as u64;
                lemma_combine(lo, rest, k, n, v);
                assert forall|i: int| 0 <= i < bits implies val_bits(v, bits as nat)[i]
                    == pre.all_bits().subrange(pre.cursor(), pre.cursor() + bits)[i] by {
                    if i < k {
                        assert(val_bits(lo, k as nat)[i] == pre.all_bits()[pre.cursor() + i]);
                    } else {
                        assert(val_bits(rest, (n - k) as nat)[i - k] == half.all_bits()[half.cursor()
                            + (i - k)]);
                    }
                }
                assert(val_bits(v, bits as nat) =~= pre.all_bits().subrange(
                    pre.cursor(),
                    pre.cursor() + bits,
                ));
            }
        }
        v
    }

    /// After extracting `n` bits of byte `pre.byte_offset` starting at the
    /// old bit offset, `w` matches the consumed bit segment.
    proof fn lemma_read_segment(self, pre: Reader<'a>, w: u64, n: nat, b: u8)
        requires
            pre.wf(),
            1 <= n,
            pre.bit_offset + n <= 8,
            pre.byte_offset < pre.bytes@.len(),
            b == pre.bytes@[pre.byte_offset as int],
            self.bytes@ == pre.bytes@,
            self.cursor() == pre.cursor() + n,
            forall|i: u64|
                i < n as u64 ==> #[trigger] nth_bit(w, i) == nth_bit(
                    b as u64,
                    (pre.bit_offset as u64 + i) as u64,
                ),
        ensures
            val_bits(w, n) == pre.all_bits().subrange(pre.cursor(), pre.cursor() + n as int),
    {
        assert forall|i: int| 0 <= i < n implies val_bits(w, n)[i] == pre.all_bits()[pre.cursor()
            + i] by {
            lemma_stream_bits_index(pre.bytes@, pre.byte_offset as int, pre.bit_offset + i);
        }
        assert(val_bits(w, n) =~= pre.all_bits().subrange(pre.cursor(), pre.cursor() + n as int));
    }

    /// Peek the next `bits` bits without moving the cursor.
    pub fn view(&self, bits: usize) -> (r: u64)
        requires
            self.wf(),
            bits <= 64,
            self.cursor() + bits <= 8 * self.spec_bytes().len(),
        ensures
            fits(r, bits as nat),
            val_bits(r, bits as nat) == self.all_bits().subrange(
                self.cursor(),
                self.cursor() + bits,
            ),
    {
        let mut probe = Self {
            bytes: self.bytes,
            byte_offset: self.byte_offset,
            bit_offset: self.bit_offset,
        };
        probe.read(bits)
    }

    /// Returns a number of non-consumed bytes.
    pub fn non_read_bytes(&self) -> (r: usize)
        requires
            self.wf(),
        ensures
            r == self.spec_bytes().len() - self.byte_offset,
    {
        self.bytes.len() - self.byte_offset
    }

    /// Returns a number of non-consumed bits.
    pub fn non_read_bits(&self) -> (r: usize)
        requires
            self.wf(),
        ensures
            r == 8 * self.spec_bytes().len() - self.cursor(),
    {
        proof {
            assert((self.bytes@.len() - self.byte_offset) * 8 == self.bytes@.len() * 8
                - self.byte_offset * 8) by (nonlinear_arith);
            assert(self.byte_offset * 8 + self.bit_offset <= self.bytes@.len() * 8)
                by (nonlinear_arith)
                requires
                    self.byte_offset <= self.bytes@.len(),
                    self.bit_offset < 8,
                    self.bit_offset != 0 ==> self.byte_offset < self.bytes@.len(),
            ;
        }
        self.non_read_bytes() * 8 - self.bit_offset
    }
}

} // verus!
