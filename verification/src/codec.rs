//! The per-type mapping layer: each primitive type expressed through the
//! core operations of the bit stream, the byte stream and the size-class
//! codec. Every encoder states exactly which bits and bytes it appends;
//! every decoder states exactly which inputs it accepts, which consumed
//! prefix belongs to the returned value, and that a buffer beginning with a
//! value's encoding decodes to that value.

use vstd::prelude::*;

use vstd::arithmetic::power2::lemma2_to64;
use vstd::arithmetic::power2::lemma2_to64_rest;
use vstd::arithmetic::power2::pow2;

use crate::bits::bits_val;
use crate::bits::fits;
use crate::bits::lemma_bits_val_of_val_bits;
use crate::bits::lemma_fits_is_bound;
use crate::bits::nth_bit;
use crate::bits::val_bits;
use crate::error::Error;
use crate::read_writer::enc_szc_bits;
use crate::read_writer::enc_szc_bytes;
use crate::read_writer::le_bytes;
use crate::read_writer::le_len;
use crate::read_writer::le_val;
use crate::read_writer::lemma_le_len_le;
use crate::read_writer::lemma_le_val_of_le_bytes;
use crate::read_writer::szc_size;
use crate::read_writer::Reader;
use crate::read_writer::Writer;
use crate::U56;
use crate::U56_MAX;

verus! {

/// The single bit a boolean contributes to the bit stream.
pub open spec fn enc_bool_bits(v: bool) -> Seq<bool> {
    seq![v]
}

/// The minimal representation of a nonzero value ends in a nonzero byte.
pub proof fn lemma_le_bytes_minimal_last(v: nat)
    requires
        v >= 1,
    ensures
        le_len(v) >= 1,
        le_bytes(v, le_len(v)).last() != 0,
    decreases v,
{
    if v < 256 {
        assert(v / 256 == 0) by (nonlinear_arith)
            requires
                0 <= v < 256,
        ;
        assert(le_len(0) == 0);
        assert(le_len(v) == 1);
        assert(le_bytes(v, 1) =~= seq![(v % 256) as u8] + le_bytes(v / 256, 0));
        assert(v % 256 == v) by (nonlinear_arith)
            requires
                0 <= v < 256,
        ;
    } else {
        assert(v / 256 >= 1 && v / 256 < v) by (nonlinear_arith)
            requires
                v >= 256,
        ;
        lemma_le_bytes_minimal_last(v / 256);
        let n = le_len(v);
        assert(n == 1 + le_len(v / 256));
        assert(le_bytes(v, n).drop_first() =~= le_bytes(v / 256, (n - 1) as nat));
        assert(le_bytes(v, n).last() == le_bytes(v / 256, (n - 1) as nat).last());
    }
}

/// What a size-class decoder meets when the streams begin with the
/// encoding of `w`: the tag names the canonical size, the bytes are the
/// canonical representation of `w`, and its last byte is not a superfluous
/// zero.
pub proof fn lemma_szc_complete(w: u64, min_size: nat, bfs: nat, seg: Seq<bool>, rem: Seq<u8>)
    requires
        bfs < 64,
        min_size <= 1,
        szc_size(w as nat, min_size) - min_size < pow2(bfs),
        seg == enc_szc_bits(w as nat, min_size, bfs),
        enc_szc_bytes(w as nat, min_size).is_prefix_of(rem),
    ensures
        bits_val(seg) + min_size == szc_size(w as nat, min_size),
        szc_size(w as nat, min_size) <= rem.len(),
        rem.take(szc_size(w as nat, min_size) as int) == enc_szc_bytes(w as nat, min_size),
        le_val(rem.take(szc_size(w as nat, min_size) as int)) == w,
        szc_size(w as nat, min_size) > 1 ==> rem.take(
            szc_size(w as nat, min_size) as int,
        ).last() != 0,
{
    let size = szc_size(w as nat, min_size);
    lemma_szc_fits_u64_any(w);
    let tag = (size - min_size) as u64;
    assert(tag == size - min_size);
    assert(fits(tag, bfs)) by {
        lemma_fits_is_bound(tag, bfs);
    }
    lemma_bits_val_of_val_bits(tag, bfs);
    let eb = enc_szc_bytes(w as nat, min_size);
    crate::read_writer::lemma_le_bytes_len(w as nat, size);
    assert(eb.len() == size);
    assert(rem.take(size as int) =~= eb);
    lemma_le_len_le(w as nat, size);
    lemma_le_val_of_le_bytes(w as nat, size);
    if size > 1 {
        if le_len(w as nat) >= min_size {
            assert(le_len(w as nat) == size);
            assert(w >= 1) by {
                if w == 0 {
                    assert(le_len(0) == 0);
                }
            }
            lemma_le_bytes_minimal_last(w as nat);
        } else {
            // a floor of at most one byte cannot reach a multi-byte size
            assert(size == min_size);
        }
    }
}

/// The size a size-class decoder accepted is the canonical size of the
/// value it returned, except that a floor of zero also admits the value
/// zero carried in one explicit zero byte.
pub proof fn lemma_szc_sound(v: u64, min_size: nat, size: nat, taken: Seq<u8>)
    requires
        v as nat == le_val(taken),
        taken.len() == size,
        size >= min_size,
        le_bytes(v as nat, size) == taken,
        size > 1 ==> le_len(v as nat) == size,
        min_size >= 1 || size == 0 || v != 0,
    ensures
        szc_size(v as nat, min_size) == size,
        taken == enc_szc_bytes(v as nat, min_size),
{
    if size == 0 {
        assert(le_len(0) == 0);
        assert(szc_size(0, min_size) == min_size);
    } else if size == 1 {
        if v == 0 {
            assert(le_len(0) == 0);
        } else {
            assert((v as nat) < 256) by {
                crate::read_writer::lemma_le_val_bound(taken);
                assert(pow2(8) == 256) by {
                    lemma2_to64();
                }
            }
            assert(v as nat / 256 == 0) by (nonlinear_arith)
                requires
                    (v as nat) < 256,
            ;
            assert(le_len(0) == 0);
            assert(le_len(v as nat) == 1);
        }
    }
}


/// The two's complement magnitude of a signed value: its absolute value,
/// carried in a `u64`.
pub open spec fn i64_mag(v: i64) -> u64 {
    if v >= 0 {
        v as u64
    } else {
        (!(v as u64) + 1) as u64
    }
}

/// Rebuilding a signed value from its sign and magnitude, two's complement:
/// the inverse of splitting it, wrapping for magnitudes beyond the range.
pub open spec fn i64_from_parts(neg: bool, m: u64) -> i64 {
    if neg {
        ((!m + 1) as u64) as i64
    } else {
        m as i64
    }
}

/// The bit-stream contribution of a signed value: its sign, then the
/// size-class tag of its magnitude.
pub open spec fn enc_i64_bits(v: i64) -> Seq<bool> {
    seq![v < 0] + enc_szc_bits(i64_mag(v) as nat, 1, 3)
}

/// The byte-stream contribution of a signed value: the magnitude bytes.
pub open spec fn enc_i64_bytes(v: i64) -> Seq<u8> {
    enc_szc_bytes(i64_mag(v) as nat, 1)
}

/// Splitting a signed value into sign and magnitude and rebuilding it is
/// the identity; the magnitude never exceeds `2^63`.
pub proof fn lemma_i64_parts(v: i64)
    ensures
        i64_from_parts(v < 0, i64_mag(v)) == v,
        i64_mag(v) <= 0x8000_0000_0000_0000u64,
        v < 0 ==> i64_mag(v) >= 1,
{
    if v < 0 {
        assert((v as u64) >= 0x8000_0000_0000_0000u64 && ((!((!(v as u64) + 1) as u64) + 1) as u64)
            == v as u64 && ((v as u64) as i64) == v && ((!(v as u64) + 1) as u64)
            <= 0x8000_0000_0000_0000u64 && ((!(v as u64) + 1) as u64) >= 1) by (bit_vector)
            requires
                v < 0,
        ;
    } else {
        assert(((v as u64) as i64) == v && (v as u64) <= 0x8000_0000_0000_0000u64) by (bit_vector)
            requires
                v >= 0,
        ;
    }
}


/// The rebuilt signed value carries the sign bit it was built from, and
/// splits back into the same parts.
pub proof fn lemma_i64_sign(neg: bool, m: u64, v: i64)
    requires
        neg ==> m >= 1 && v == ((!m + 1) as u64) as i64,
        !neg ==> v == m as i64,
    ensures
        v == i64_from_parts(neg, m),
        neg && m <= 0x8000_0000_0000_0000u64 ==> v < 0 && i64_mag(v) == m,
        !neg && m < 0x8000_0000_0000_0000u64 ==> v >= 0 && i64_mag(v) == m,
{
    if neg {
        assert(m <= 0x8000_0000_0000_0000u64 ==> (((!m + 1) as u64) as i64) < 0 && (!((((!m
            + 1) as u64) as i64) as u64) + 1) as u64 == m) by (bit_vector)
            requires
                m >= 1,
        ;
    } else {
        assert(m < 0x8000_0000_0000_0000u64 ==> (m as i64) >= 0 && ((m as i64) as u64) == m)
            by (bit_vector);
    }
}


/// Minimality: the size-class codec never emits more bytes than the minimal
/// little-endian representation plus the `min_size` floor; below the floor
/// it emits exactly the floor.
pub proof fn lemma_szc_minimality(v: u64, min_size: nat)
    ensures
        szc_size(v as nat, min_size) <= le_len(v as nat) + min_size,
        le_len(v as nat) >= min_size ==> szc_size(v as nat, min_size) == le_len(v as nat),
        le_len(v as nat) < min_size ==> szc_size(v as nat, min_size) == min_size,
        enc_szc_bytes(v as nat, min_size).len() == szc_size(v as nat, min_size),
{
    crate::read_writer::lemma_le_bytes_len(v as nat, szc_size(v as nat, min_size));
}

/// Canonical uniqueness: two values with the same size-class byte encoding
/// are the same value.
pub proof fn lemma_szc_injective(v: u64, w: u64, min_size: nat)
    requires
        enc_szc_bytes(v as nat, min_size) == enc_szc_bytes(w as nat, min_size),
    ensures
        v == w,
{
    let n = szc_size(v as nat, min_size);
    let m = szc_size(w as nat, min_size);
    crate::read_writer::lemma_le_bytes_len(v as nat, n);
    crate::read_writer::lemma_le_bytes_len(w as nat, m);
    assert(n == m);
    lemma_le_len_le(v as nat, n);
    lemma_le_len_le(w as nat, m);
    lemma_le_val_of_le_bytes(v as nat, n);
    lemma_le_val_of_le_bytes(w as nat, m);
}


/// The bit-stream contribution of a sequence of 64-bit elements: each
/// element's size-class tag, in order.
pub open spec fn enc_u64_elems_bits(s: Seq<u64>) -> Seq<bool>
    decreases s.len(),
{
    if s.len() == 0 {
        seq![]
    } else {
        enc_szc_bits(s[0] as nat, 1, 3) + enc_u64_elems_bits(s.drop_first())
    }
}

/// The byte-stream contribution of a sequence of 64-bit elements: each
/// element's magnitude bytes, in order.
pub open spec fn enc_u64_elems_bytes(s: Seq<u64>) -> Seq<u8>
    decreases s.len(),
{
    if s.len() == 0 {
        seq![]
    } else {
        enc_szc_bytes(s[0] as nat, 1) + enc_u64_elems_bytes(s.drop_first())
    }
}

/// Appending an element appends its encoding to both streams.
pub proof fn lemma_enc_u64_elems_push(s: Seq<u64>, v: u64)
    ensures
        enc_u64_elems_bits(s.push(v)) == enc_u64_elems_bits(s) + enc_szc_bits(v as nat, 1, 3),
        enc_u64_elems_bytes(s.push(v)) == enc_u64_elems_bytes(s) + enc_szc_bytes(v as nat, 1),
    decreases s.len(),
{
    if s.len() == 0 {
        assert(s.push(v) =~= seq![v]);
        assert(seq![v].drop_first() =~= Seq::<u64>::empty());
        assert(s =~= Seq::<u64>::empty());
        assert(enc_u64_elems_bits(seq![v].drop_first()) =~= Seq::<bool>::empty());
        assert(enc_u64_elems_bytes(seq![v].drop_first()) =~= Seq::<u8>::empty());
        assert(enc_u64_elems_bits(s.push(v)) =~= enc_u64_elems_bits(s) + enc_szc_bits(
            v as nat,
            1,
            3,
        ));
        assert(enc_u64_elems_bytes(s.push(v)) =~= enc_u64_elems_bytes(s) + enc_szc_bytes(
            v as nat,
            1,
        ));
    } else {
        assert(s.push(v).drop_first() =~= s.drop_first().push(v));
        lemma_enc_u64_elems_push(s.drop_first(), v);
        assert(enc_u64_elems_bits(s.push(v)) =~= enc_u64_elems_bits(s) + enc_szc_bits(
            v as nat,
            1,
            3,
        ));
        assert(enc_u64_elems_bytes(s.push(v)) =~= enc_u64_elems_bytes(s) + enc_szc_bytes(
            v as nat,
            1,
        ));
    }
}

/// The spec-level parse of `n` consecutive 64-bit elements: the elements
/// and the bit and byte counts consumed, or nothing where the streams end
/// too soon or an element is non-canonical.
pub open spec fn dec_u64_elems(bits: Seq<bool>, bytes: Seq<u8>, n: nat) -> Option<
    (Seq<u64>, int, int),
>
    decreases n,
{
    if n == 0 {
        Some((seq![], 0int, 0int))
    } else if bits.len() < 3 {
        None
    } else {
        let size = bits_val(bits.take(3)) + 1;
        if size > bytes.len() {
            None
        } else {
            let taken = bytes.take(size as int);
            if size > 1 && taken.last() == 0 {
                None
            } else {
                match dec_u64_elems(bits.skip(3), bytes.skip(size as int), (n - 1) as nat) {
                    Some((s, cb, cy)) => Some(
                        (seq![(le_val(taken)) as u64] + s, 3 + cb, size + cy),
                    ),
                    None => None,
                }
            }
        }
    }
}

impl Writer {
    /// One raw byte into the byte stream; the bit stream is untouched.
    pub fn write_u8(&mut self, v: u8)
        requires
            old(self).wf(),
        ensures
            final(self).wf(),
            final(self).bits_w@ == old(self).bits_w@,
            final(self).bytes_w.buf@ == old(self).bytes_w.buf@ + seq![v],
    {
        self.bytes_w.write_byte(v)
    }

    /// One bit into the bit stream; the byte stream is untouched.
    pub fn write_bool(&mut self, v: bool)
        requires
            old(self).wf(),
        ensures
            final(self).wf(),
            final(self).bits_w@ == old(self).bits_w@ + enc_bool_bits(v),
            final(self).bytes_w.buf@ == old(self).bytes_w.buf@,
    {
        let b: u64 = if v {
            1
        } else {
            0
        };
        proof {
            assert(nth_bit(1, 0) && !nth_bit(0, 0) && 1u64 >> 1u64 == 0 && 0u64 >> 1u64 == 0)
                by (bit_vector);
        }
        self.bits_w.write(1, b);
        proof {
            assert(val_bits(b, 1) =~= enc_bool_bits(v));
        }
    }

    /// A 16-bit value through the size-class codec with floor one and a
    /// one-bit size tag.
    pub fn write_u16(&mut self, v: u16)
        requires
            old(self).wf(),
        ensures
            final(self).wf(),
            final(self).bits_w@ == old(self).bits_w@ + enc_szc_bits(v as nat, 1, 1),
            final(self).bytes_w.buf@ == old(self).bytes_w.buf@ + enc_szc_bytes(v as nat, 1),
    {
        proof {
            lemma_szc_fits_u16(v);
        }
        self.write_u64_bits(1, 1, v as u64)
    }

    /// A 32-bit value through the size-class codec with floor one and a
    /// two-bit size tag.
    pub fn write_u32(&mut self, v: u32)
        requires
            old(self).wf(),
        ensures
            final(self).wf(),
            final(self).bits_w@ == old(self).bits_w@ + enc_szc_bits(v as nat, 1, 2),
            final(self).bytes_w.buf@ == old(self).bytes_w.buf@ + enc_szc_bytes(v as nat, 1),
    {
        proof {
            lemma_szc_fits_u32(v);
        }
        self.write_u64_bits(1, 2, v as u64)
    }

    /// A 64-bit value through the size-class codec with floor one and a
    /// three-bit size tag.
    pub fn write_u64(&mut self, v: u64)
        requires
            old(self).wf(),
        ensures
            final(self).wf(),
            final(self).bits_w@ == old(self).bits_w@ + enc_szc_bits(v as nat, 1, 3),
            final(self).bytes_w.buf@ == old(self).bytes_w.buf@ + enc_szc_bytes(v as nat, 1),
    {
        proof {
            lemma_szc_fits_u64(v);
        }
        self.write_u64_bits(1, 3, v)
    }

    /// A signed value: one sign bit, then the unsigned magnitude through
    /// the 64-bit size-class codec.
    pub fn write_i64(&mut self, v: i64)
        requires
            old(self).wf(),
        ensures
            final(self).wf(),
            final(self).bits_w@ == old(self).bits_w@ + enc_i64_bits(v),
            final(self).bytes_w.buf@ == old(self).bytes_w.buf@ + enc_i64_bytes(v),
    {
        let neg = v < 0;
        self.write_bool(neg);
        proof {
            assert(v < 0 ==> (v as u64) >= 0x8000_0000_0000_0000u64 && !(v as u64)
                <= 0x7fff_ffff_ffff_ffffu64) by (bit_vector);
        }
        let mag: u64 = if v >= 0 {
            v as u64
        } else {
            !(v as u64) + 1
        };
        self.write_u64(mag);
        proof {
            assert(final(self).bits_w@ =~= old(self).bits_w@ + enc_i64_bits(v));
        }
    }

    /// A length-delimited byte sequence: a 56-bit size-class length, then
    /// the raw bytes.
    pub fn write_bytes(&mut self, v: &[u8])
        requires
            old(self).wf(),
            v@.len() <= U56_MAX,
        ensures
            final(self).wf(),
            final(self).bits_w@ == old(self).bits_w@ + enc_szc_bits(v@.len(), 0, 3),
            final(self).bytes_w.buf@ == old(self).bytes_w.buf@ + enc_szc_bytes(v@.len(), 0)
                + v@,
    {
        self.write_u56(U56(v.len() as u64));
        self.bytes_w.write(v);
        proof {
            assert(final(self).bytes_w.buf@ =~= old(self).bytes_w.buf@ + enc_szc_bytes(
                v@.len(),
                0,
            ) + v@);
        }
    }

    /// A sequence of 64-bit elements: a 32-bit element count, then each
    /// element encoded in order.
    pub fn write_u64_seq(&mut self, v: &[u64])
        requires
            old(self).wf(),
            v@.len() <= u32::MAX,
        ensures
            final(self).wf(),
            final(self).bits_w@ == old(self).bits_w@ + enc_szc_bits(v@.len(), 1, 2)
                + enc_u64_elems_bits(v@),
            final(self).bytes_w.buf@ == old(self).bytes_w.buf@ + enc_szc_bytes(v@.len(), 1)
                + enc_u64_elems_bytes(v@),
    {
        self.write_u32(v.len() as u32);
        let ghost bits0 = self.bits_w@;
        let ghost bytes0 = self.bytes_w.buf@;
        let mut i: usize = 0;
        proof {
            assert(v@.take(0) =~= Seq::<u64>::empty());
            assert(enc_u64_elems_bits(v@.take(0)) =~= Seq::<bool>::empty());
            assert(enc_u64_elems_bytes(v@.take(0)) =~= Seq::<u8>::empty());
            assert(bits0 + enc_u64_elems_bits(v@.take(0)) =~= bits0);
            assert(bytes0 + enc_u64_elems_bytes(v@.take(0)) =~= bytes0);
        }
        while i < v.len()
            invariant
                self.wf(),
                i <= v@.len(),
                self.bits_w@ == bits0 + enc_u64_elems_bits(v@.take(i as int)),
                self.bytes_w.buf@ == bytes0 + enc_u64_elems_bytes(v@.take(i as int)),
            decreases v@.len() - i,
        {
            let x = *vstd::slice::slice_index_get(v, i);
            self.write_u64(x);
            i = i + 1;
            proof {
                assert(v@.take(i as int) =~= v@.take(i - 1).push(v@[i - 1]));
                lemma_enc_u64_elems_push(v@.take(i - 1), v@[i - 1]);
                assert(self.bits_w@ =~= bits0 + enc_u64_elems_bits(v@.take(i as int)));
                assert(self.bytes_w.buf@ =~= bytes0 + enc_u64_elems_bytes(v@.take(i as int)));
            }
        }
        proof {
            assert(v@.take(v@.len() as int) =~= v@);
            assert(self.bits_w@ =~= old(self).bits_w@ + enc_szc_bits(v@.len(), 1, 2)
                + enc_u64_elems_bits(v@));
            assert(self.bytes_w.buf@ =~= old(self).bytes_w.buf@ + enc_szc_bytes(v@.len(), 1)
                + enc_u64_elems_bytes(v@));
        }
    }

    /// A 56-bit value through the size-class codec with floor zero and a
    /// three-bit size tag: the zero floor lets value zero use zero payload
    /// bytes.
    pub fn write_u56(&mut self, v: U56)
        requires
            old(self).wf(),
            v.wf(),
        ensures
            final(self).wf(),
            final(self).bits_w@ == old(self).bits_w@ + enc_szc_bits(v.spec_value() as nat, 0, 3),
            final(self).bytes_w.buf@ == old(self).bytes_w.buf@ + enc_szc_bytes(
                v.spec_value() as nat,
                0,
            ),
    {
        proof {
            lemma_szc_fits_u56(v.spec_value());
        }
        self.write_u64_bits(0, 3, v.value())
    }
}

/// The minimal length of any 64-bit value is at most eight bytes.
pub proof fn lemma_szc_fits_u64_any(v: u64)
    ensures
        le_len(v as nat) <= 8,
{
    assert((v as nat) < pow2(64)) by {
        lemma2_to64();
        lemma2_to64_rest();
    }
    lemma_le_len_le(v as nat, 8);
}

/// Size-class bounds for 16-bit values.
pub proof fn lemma_szc_fits_u16(v: u16)
    ensures
        szc_size(v as nat, 1) <= 2,
        szc_size(v as nat, 1) - 1 < pow2(1),
        le_len(v as nat) <= 2,
{
    assert((v as nat) < pow2(16) && pow2(1) == 2) by {
        lemma2_to64();
    }
    lemma_le_len_le(v as nat, 2);
}

/// Size-class bounds for 32-bit values.
pub proof fn lemma_szc_fits_u32(v: u32)
    ensures
        szc_size(v as nat, 1) <= 4,
        szc_size(v as nat, 1) - 1 < pow2(2),
        le_len(v as nat) <= 4,
{
    assert((v as nat) < pow2(32) && pow2(2) == 4) by {
        lemma2_to64();
    }
    lemma_le_len_le(v as nat, 4);
}

/// Size-class bounds for 64-bit values.
pub proof fn lemma_szc_fits_u64(v: u64)
    ensures
        szc_size(v as nat, 1) <= 8,
        szc_size(v as nat, 1) - 1 < pow2(3),
        le_len(v as nat) <= 8,
{
    assert((v as nat) < pow2(64) && pow2(3) == 8) by {
        lemma2_to64();
        lemma2_to64_rest();
    }
    lemma_le_len_le(v as nat, 8);
}

/// Size-class bounds for 56-bit values.
pub proof fn lemma_szc_fits_u56(v: u64)
    requires
        v <= U56_MAX,
    ensures
        szc_size(v as nat, 0) <= 7,
        szc_size(v as nat, 0) - 0 < pow2(3),
        le_len(v as nat) <= 7,
{
    assert((v as nat) < pow2(56) && pow2(3) == 8) by {
        lemma2_to64();
        lemma2_to64_rest();
    }
    lemma_le_len_le(v as nat, 7);
}

impl<'a> Reader<'a> {
    /// One raw byte from the byte stream; the bit stream is untouched.
    pub fn read_u8(&mut self) -> (r: Result<u8, Error>)
        requires
            old(self).wf(),
        ensures
            final(self).wf(),
            final(self).bits_r == old(self).bits_r,
            final(self).bytes_r.buf@ == old(self).bytes_r.buf@,
            r is Ok <==> old(self).bytes_r.remaining().len() >= 1,
            r matches Ok(v) ==> v == old(self).bytes_r.remaining()[0]
                && final(self).bytes_r.spec_position() == old(self).bytes_r.spec_position() + 1,
            r is Err ==> r == Err::<u8, Error>(Error::MalformedEncoding) && final(self).bytes_r
                == old(self).bytes_r,
    {
        self.bytes_r.read_byte()
    }

    /// One bit from the bit stream as a boolean; the byte stream is
    /// untouched. Never fails when a bit remains.
    pub fn read_bool(&mut self) -> (r: Result<bool, Error>)
        requires
            old(self).wf(),
            old(self).bits_r.cursor() + 1 <= 8 * old(self).bits_r.spec_bytes().len(),
        ensures
            final(self).wf(),
            final(self).bits_r.spec_bytes() == old(self).bits_r.spec_bytes(),
            final(self).bytes_r == old(self).bytes_r,
            final(self).bits_r.cursor() == old(self).bits_r.cursor() + 1,
            r == Ok::<bool, Error>(old(self).bits_r.all_bits()[old(self).bits_r.cursor()]),
    {
        let v = self.bits_r.read(1);
        proof {
            let seg = old(self).bits_r.all_bits().subrange(
                old(self).bits_r.cursor(),
                old(self).bits_r.cursor() + 1,
            );
            assert(seg[0] == nth_bit(v, 0));
            assert(v >> 1u64 == 0 ==> ((v != 0) == nth_bit(v, 0))) by (bit_vector);
        }
        Ok(v != 0)
    }

    /// A 16-bit value through the size-class codec with floor one and a
    /// one-bit size tag. Values above the type's range are rejected.
    pub fn read_u16(&mut self) -> (r: Result<u16, Error>)
        requires
            old(self).wf(),
            old(self).bits_r.cursor() + 1 <= 8 * old(self).bits_r.spec_bytes().len(),
        ensures
            final(self).wf(),
            final(self).bits_r.spec_bytes() == old(self).bits_r.spec_bytes(),
            final(self).bytes_r.buf@ == old(self).bytes_r.buf@,
            final(self).bits_r.cursor() == old(self).bits_r.cursor() + 1,
            ({
                let seg = old(self).bits_r.all_bits().subrange(
                    old(self).bits_r.cursor(),
                    old(self).bits_r.cursor() + 1,
                );
                let size = bits_val(seg) + 1;
                let rem = old(self).bytes_r.remaining();
                &&& size > rem.len() ==> r == Err::<u16, Error>(Error::MalformedEncoding)
                    && final(self).bytes_r == old(self).bytes_r
                &&& size <= rem.len() ==> ({
                    let taken = rem.take(size as int);
                    &&& final(self).bytes_r.spec_position() == old(self).bytes_r.spec_position()
                        + size
                    &&& (r is Ok <==> !(size > 1 && taken.last() == 0) && le_val(taken)
                        <= u16::MAX)
                    &&& (size > 1 && taken.last() == 0 ==> r == Err::<u16, Error>(
                        Error::NonCanonicalEncoding,
                    ))
                    &&& (!(size > 1 && taken.last() == 0) && le_val(taken) > u16::MAX ==> r
                        == Err::<u16, Error>(Error::OverFlowError))
                    &&& (r matches Ok(v) ==> v as nat == le_val(taken) && seg == enc_szc_bits(
                        v as nat,
                        1,
                        1,
                    ) && taken == enc_szc_bytes(v as nat, 1))
                })
            }),
    {
        proof {
            assert(pow2(1) == 2) by {
                lemma2_to64();
            }
        }
        let v64 = match self.read_u64_bits(1, 1) {
            Ok(v) => v,
            Err(e) => {
                return Err(e);
            },
        };
        proof {
            let seg = old(self).bits_r.all_bits().subrange(
                old(self).bits_r.cursor(),
                old(self).bits_r.cursor() + 1,
            );
            let size = bits_val(seg) + 1;
            let rem = old(self).bytes_r.remaining();
            if size <= rem.len() {
                lemma_szc_sound(v64, 1, size, rem.take(size as int));
            }
        }
        if v64 > 0xffff {
            return Err(Error::OverFlowError);
        }
        Ok(v64 as u16)
    }

    /// A 32-bit value through the size-class codec with floor one and a
    /// two-bit size tag. Values above the type's range are rejected.
    pub fn read_u32(&mut self) -> (r: Result<u32, Error>)
        requires
            old(self).wf(),
            old(self).bits_r.cursor() + 2 <= 8 * old(self).bits_r.spec_bytes().len(),
        ensures
            final(self).wf(),
            final(self).bits_r.spec_bytes() == old(self).bits_r.spec_bytes(),
            final(self).bytes_r.buf@ == old(self).bytes_r.buf@,
            final(self).bits_r.cursor() == old(self).bits_r.cursor() + 2,
            ({
                let seg = old(self).bits_r.all_bits().subrange(
                    old(self).bits_r.cursor(),
                    old(self).bits_r.cursor() + 2,
                );
                let size = bits_val(seg) + 1;
                let rem = old(self).bytes_r.remaining();
                &&& size > rem.len() ==> r == Err::<u32, Error>(Error::MalformedEncoding)
                    && final(self).bytes_r == old(self).bytes_r
                &&& size <= rem.len() ==> ({
                    let taken = rem.take(size as int);
                    &&& final(self).bytes_r.spec_position() == old(self).bytes_r.spec_position()
                        + size
                    &&& (r is Ok <==> !(size > 1 && taken.last() == 0) && le_val(taken)
                        <= u32::MAX)
                    &&& (size > 1 && taken.last() == 0 ==> r == Err::<u32, Error>(
                        Error::NonCanonicalEncoding,
                    ))
                    &&& (!(size > 1 && taken.last() == 0) && le_val(taken) > u32::MAX ==> r
                        == Err::<u32, Error>(Error::OverFlowError))
                    &&& (r matches Ok(v) ==> v as nat == le_val(taken) && seg == enc_szc_bits(
                        v as nat,
                        1,
                        2,
                    ) && taken == enc_szc_bytes(v as nat, 1))
                })
            }),
    {
        proof {
            assert(pow2(2) == 4) by {
                lemma2_to64();
            }
        }
        let v64 = match self.read_u64_bits(1, 2) {
            Ok(v) => v,
            Err(e) => {
                return Err(e);
            },
        };
        proof {
            let seg = old(self).bits_r.all_bits().subrange(
                old(self).bits_r.cursor(),
                old(self).bits_r.cursor() + 2,
            );
            let size = bits_val(seg) + 1;
            let rem = old(self).bytes_r.remaining();
            if size <= rem.len() {
                lemma_szc_sound(v64, 1, size, rem.take(size as int));
            }
        }
        if v64 > 0xffff_ffff {
            return Err(Error::OverFlowError);
        }
        Ok(v64 as u32)
    }

    /// A 64-bit value through the size-class codec with floor one and a
    /// three-bit size tag.
    pub fn read_u64(&mut self) -> (r: Result<u64, Error>)
        requires
            old(self).wf(),
            old(self).bits_r.cursor() + 3 <= 8 * old(self).bits_r.spec_bytes().len(),
        ensures
            final(self).wf(),
            final(self).bits_r.spec_bytes() == old(self).bits_r.spec_bytes(),
            final(self).bytes_r.buf@ == old(self).bytes_r.buf@,
            final(self).bits_r.cursor() == old(self).bits_r.cursor() + 3,
            ({
                let seg = old(self).bits_r.all_bits().subrange(
                    old(self).bits_r.cursor(),
                    old(self).bits_r.cursor() + 3,
                );
                let size = bits_val(seg) + 1;
                let rem = old(self).bytes_r.remaining();
                &&& size > rem.len() ==> r == Err::<u64, Error>(Error::MalformedEncoding)
                    && final(self).bytes_r == old(self).bytes_r
                &&& size <= rem.len() ==> ({
                    let taken = rem.take(size as int);
                    &&& final(self).bytes_r.spec_position() == old(self).bytes_r.spec_position()
                        + size
                    &&& (r is Ok <==> !(size > 1 && taken.last() == 0))
                    &&& (r is Err ==> r == Err::<u64, Error>(Error::NonCanonicalEncoding))
                    &&& (r matches Ok(v) ==> v as nat == le_val(taken) && seg == enc_szc_bits(
                        v as nat,
                        1,
                        3,
                    ) && taken == enc_szc_bytes(v as nat, 1))
                })
            }),
    {
        proof {
            assert(pow2(3) == 8) by {
                lemma2_to64();
            }
        }
        let v64 = match self.read_u64_bits(1, 3) {
            Ok(v) => v,
            Err(e) => {
                return Err(e);
            },
        };
        proof {
            let seg = old(self).bits_r.all_bits().subrange(
                old(self).bits_r.cursor(),
                old(self).bits_r.cursor() + 3,
            );
            let size = bits_val(seg) + 1;
            let rem = old(self).bytes_r.remaining();
            if size <= rem.len() {
                lemma_szc_sound(v64, 1, size, rem.take(size as int));
            }
        }
        Ok(v64)
    }

    /// A sequence of 64-bit elements: a 32-bit element count, then each
    /// element in order. Succeeds exactly where the spec-level parse of
    /// that many elements succeeds, and returns exactly what it parses.
    #[verifier::loop_isolation(false)]
    pub fn read_u64_seq(&mut self) -> (r: Result<Vec<u64>, Error>)
        requires
            old(self).wf(),
            old(self).bits_r.cursor() + 2 <= 8 * old(self).bits_r.spec_bytes().len(),
        ensures
            final(self).wf(),
            final(self).bits_r.spec_bytes() == old(self).bits_r.spec_bytes(),
            final(self).bytes_r.buf@ == old(self).bytes_r.buf@,
            r is Err ==> r == Err::<Vec<u64>, Error>(Error::MalformedEncoding) || r == Err::<
                Vec<u64>,
                Error,
            >(Error::NonCanonicalEncoding) || r == Err::<Vec<u64>, Error>(Error::OverFlowError),
            ({
                let bits_all = old(self).bits_r.all_bits();
                let c0 = old(self).bits_r.cursor();
                let seg = bits_all.subrange(c0, c0 + 2);
                let size = bits_val(seg) + 1;
                let rem = old(self).bytes_r.remaining();
                &&& size <= rem.len() && !(size > 1 && rem.take(size as int).last() == 0)
                    && le_val(rem.take(size as int)) <= u32::MAX ==> ({
                    let pr = dec_u64_elems(
                        bits_all.skip(c0 + 2),
                        rem.skip(size as int),
                        le_val(rem.take(size as int)),
                    );
                    &&& (r is Ok <==> pr is Some)
                    &&& (r matches Ok(out) ==> pr matches Some(p) && out@ == p.0
                        && final(self).bits_r.cursor() == c0 + 2 + p.1
                        && final(self).bytes_r.spec_position() == old(self).bytes_r.spec_position()
                        + size + p.2)
                })
                &&& !(size <= rem.len() && !(size > 1 && rem.take(size as int).last() == 0)
                    && le_val(rem.take(size as int)) <= u32::MAX) ==> r is Err
            }),
    {
        let cnt = match self.read_u32() {
            Ok(c) => c,
            Err(e) => {
                return Err(e);
            },
        };
        let ghost bits_all = old(self).bits_r.all_bits();
        let ghost c_mid = self.bits_r.cursor();
        let ghost p_mid = self.bytes_r.spec_position();
        let mut out: Vec<u64> = Vec::new();
        let mut i: u32 = 0;
        proof {
            let c0 = old(self).bits_r.cursor();
            let seg = bits_all.subrange(c0, c0 + 2);
            let size = bits_val(seg) + 1;
            let rem = old(self).bytes_r.remaining();
            assert(size <= rem.len() && !(size > 1 && rem.take(size as int).last() == 0)
                && le_val(rem.take(size as int)) <= u32::MAX);
            assert(cnt as nat == le_val(rem.take(size as int)));
            assert(rem.skip(size as int) =~= old(self).bytes_r.buf@.skip(p_mid));
            assert(c_mid == c0 + 2);
            let d0 = dec_u64_elems(bits_all.skip(c_mid), old(self).bytes_r.buf@.skip(p_mid),
                cnt as nat);
            match d0 {
                Some(p) => {
                    assert(out@ + p.0 =~= p.0);
                },
                None => {},
            }
        }
        while i < cnt
            invariant
                self.wf(),
                i <= cnt,
                out@.len() == i,
                self.bits_r.spec_bytes() == old(self).bits_r.spec_bytes(),
                self.bytes_r.buf@ == old(self).bytes_r.buf@,
                bits_all == old(self).bits_r.all_bits(),
                c_mid <= self.bits_r.cursor(),
                p_mid <= self.bytes_r.spec_position(),
                ({
                    let d_mid = dec_u64_elems(
                        bits_all.skip(c_mid),
                        old(self).bytes_r.buf@.skip(p_mid),
                        cnt as nat,
                    );
                    let d_cur = dec_u64_elems(
                        bits_all.skip(self.bits_r.cursor()),
                        old(self).bytes_r.buf@.skip(self.bytes_r.spec_position()),
                        (cnt - i) as nat,
                    );
                    &&& (d_cur matches Some(p) ==> d_mid == Some(
                        (
                            out@ + p.0,
                            self.bits_r.cursor() - c_mid + p.1,
                            self.bytes_r.spec_position() - p_mid + p.2,
                        ),
                    ))
                    &&& (d_cur is None ==> d_mid is None)
                }),
            decreases cnt - i,
        {
            let ghost cb = self.bits_r.cursor();
            let ghost pb = self.bytes_r.spec_position();
            let ghost bits_rem = bits_all.skip(cb);
            let ghost bytes_rem = old(self).bytes_r.buf@.skip(pb);
            if self.bits_r.non_read_bits() < 3 {
                proof {
                    assert(bits_rem.len() < 3);
                    assert(dec_u64_elems(bits_rem, bytes_rem, (cnt - i) as nat) is None);
                }
                return Err(Error::MalformedEncoding);
            }
            let x = match self.read_u64() {
                Ok(x) => x,
                Err(e) => {
                    proof {
                        assert(bits_rem.take(3) =~= bits_all.subrange(cb, cb + 3));
                        let szi = bits_val(bits_rem.take(3)) + 1 as int;
                        if szi <= bytes_rem.len() {
                            assert(bytes_rem.take(szi as int) =~= old(
                                self,
                            ).bytes_r.buf@.subrange(pb, pb + szi));
                        }
                        assert(dec_u64_elems(bits_rem, bytes_rem, (cnt - i) as nat) is None);
                    }
                    return Err(e);
                },
            };
            out.push(x);
            i = i + 1;
            proof {
                let sz = bits_val(bits_rem.take(3)) + 1;
                assert(bits_rem.take(3) =~= bits_all.subrange(cb, cb + 3));
                assert(sz <= bytes_rem.len());
                assert(bytes_rem.take(sz as int) =~= old(self).bytes_r.buf@.subrange(
                    pb,
                    pb + sz,
                ));
                assert(bits_rem.skip(3) =~= bits_all.skip(cb + 3));
                assert(bytes_rem.skip(sz as int) =~= old(self).bytes_r.buf@.skip(pb + sz));
                assert(x as nat == le_val(bytes_rem.take(sz as int)));
                let d_prev = dec_u64_elems(bits_rem, bytes_rem, (cnt - (i - 1)) as nat);
                let d_new = dec_u64_elems(
                    bits_all.skip(self.bits_r.cursor()),
                    old(self).bytes_r.buf@.skip(self.bytes_r.spec_position()),
                    (cnt - i) as nat,
                );
                assert(d_prev == (match d_new {
                    Some(p) => Some::<(Seq<u64>, int, int)>(
                        (seq![x] + p.0, 3 + p.1, sz + p.2),
                    ),
                    None => None::<(Seq<u64>, int, int)>,
                }));
                match d_new {
                    Some(p) => {
                        assert(out@ + p.0 =~= out@.take(out@.len() - 1) + (seq![x] + p.0));
                    },
                    None => {},
                }
            }
        }
        proof {
            assert(bits_all.skip(self.bits_r.cursor()).len() >= 0);
            assert(dec_u64_elems(
                bits_all.skip(self.bits_r.cursor()),
                old(self).bytes_r.buf@.skip(self.bytes_r.spec_position()),
                0,
            ) == Some((Seq::<u64>::empty(), 0int, 0int)));
            assert(out@ + Seq::<u64>::empty() =~= out@);
        }
        Ok(out)
    }

    /// The bounded byte-slice read: a 56-bit size-class length, checked
    /// against the caller's maximum, then that many raw bytes. Fails with
    /// `TooLargeAlloc` exactly when the decoded length exceeds `max_len`,
    /// and with `MalformedEncoding` when fewer bytes remain than declared.
    pub fn slice_bytes(&mut self, max_len: usize) -> (r: Result<&'a [u8], Error>)
        requires
            old(self).wf(),
            old(self).bits_r.cursor() + 3 <= 8 * old(self).bits_r.spec_bytes().len(),
        ensures
            final(self).wf(),
            final(self).bits_r.spec_bytes() == old(self).bits_r.spec_bytes(),
            final(self).bytes_r.buf@ == old(self).bytes_r.buf@,
            final(self).bits_r.cursor() == old(self).bits_r.cursor() + 3,
            ({
                let seg = old(self).bits_r.all_bits().subrange(
                    old(self).bits_r.cursor(),
                    old(self).bits_r.cursor() + 3,
                );
                let size = bits_val(seg);
                let rem = old(self).bytes_r.remaining();
                &&& size > rem.len() ==> r == Err::<&[u8], Error>(Error::MalformedEncoding)
                &&& size <= rem.len() ==> ({
                    let taken = rem.take(size as int);
                    let canon = !(size > 1 && taken.last() == 0);
                    let l = le_val(taken);
                    &&& (size > 1 && taken.last() == 0 ==> r == Err::<&[u8], Error>(
                        Error::NonCanonicalEncoding,
                    ))
                    &&& (canon && l > U56_MAX ==> r == Err::<&[u8], Error>(Error::OverFlowError))
                    &&& (canon && l <= U56_MAX && l > max_len ==> r == Err::<&[u8], Error>(
                        Error::TooLargeAlloc,
                    ))
                    &&& (canon && l <= max_len && l <= U56_MAX && l + size > rem.len() ==> r
                        == Err::<&[u8], Error>(Error::MalformedEncoding))
                    &&& (r is Ok <==> canon && l <= max_len && l <= U56_MAX && l + size
                        <= rem.len())
                    &&& (r matches Ok(b) ==> {
                        &&& b@ == rem.subrange(size as int, size + l as int)
                        &&& b@.len() == l <= max_len
                        &&& final(self).bytes_r.spec_position() == old(
                            self,
                        ).bytes_r.spec_position() + size + l
                        &&& ((l != 0 || size == 0) ==> seg == enc_szc_bits(l, 0, 3) && taken
                            == enc_szc_bytes(l, 0))
                    })
                })
            }),
    {
        // read slice size
        let len56 = match self.read_u56() {
            Ok(v) => v,
            Err(e) => {
                return Err(e);
            },
        };
        let lv = len56.value();
        if lv > max_len as u64 {
            return Err(Error::TooLargeAlloc);
        }
        let size: usize = lv as usize;
        let res = self.bytes_r.read(size);
        proof {
            let rem = old(self).bytes_r.remaining();
            let seg = old(self).bits_r.all_bits().subrange(
                old(self).bits_r.cursor(),
                old(self).bits_r.cursor() + 3,
            );
            let tagv = bits_val(seg);
            if tagv <= rem.len() {
                assert(rem.take(tagv as int).subrange(0, tagv as int) =~= rem.take(tagv as int));
                if res is Ok {
                    assert(res.unwrap()@ =~= rem.subrange(tagv as int, tagv + lv as int));
                }
            }
        }
        res
    }

    /// A signed value: sign bit, then magnitude; the negative-zero
    /// encoding is rejected as non-canonical. Magnitudes beyond the range
    /// wrap, two's complement.
    pub fn read_i64(&mut self) -> (r: Result<i64, Error>)
        requires
            old(self).wf(),
            old(self).bits_r.cursor() + 4 <= 8 * old(self).bits_r.spec_bytes().len(),
        ensures
            final(self).wf(),
            final(self).bits_r.spec_bytes() == old(self).bits_r.spec_bytes(),
            final(self).bytes_r.buf@ == old(self).bytes_r.buf@,
            final(self).bits_r.cursor() == old(self).bits_r.cursor() + 4,
            ({
                let negb = old(self).bits_r.all_bits()[old(self).bits_r.cursor()];
                let seg = old(self).bits_r.all_bits().subrange(
                    old(self).bits_r.cursor() + 1,
                    old(self).bits_r.cursor() + 4,
                );
                let size = bits_val(seg) + 1;
                let rem = old(self).bytes_r.remaining();
                &&& size > rem.len() ==> r == Err::<i64, Error>(Error::MalformedEncoding)
                    && final(self).bytes_r == old(self).bytes_r
                &&& size <= rem.len() ==> ({
                    let taken = rem.take(size as int);
                    let canon = !(size > 1 && taken.last() == 0);
                    &&& final(self).bytes_r.spec_position() == old(self).bytes_r.spec_position()
                        + size
                    &&& (r is Ok <==> canon && !(negb && le_val(taken) == 0))
                    &&& (r is Err ==> r == Err::<i64, Error>(Error::NonCanonicalEncoding))
                    &&& (r matches Ok(v) ==> ({
                        let m = (le_val(taken)) as u64;
                        &&& v == i64_from_parts(negb, m)
                        &&& (negb && m <= 0x8000_0000_0000_0000u64 ==> v < 0 && i64_mag(v) == m)
                        &&& (!negb && m < 0x8000_0000_0000_0000u64 ==> v >= 0 && i64_mag(v) == m)
                        &&& seg == enc_szc_bits(m as nat, 1, 3)
                        &&& taken == enc_szc_bytes(m as nat, 1)
                    }))
                })
            }),
    {
        let neg = match self.read_bool() {
            Ok(b) => b,
            Err(e) => {
                return Err(e);
            },
        };
        let mag = match self.read_u64() {
            Ok(m) => m,
            Err(e) => {
                return Err(e);
            },
        };
        if neg && mag == 0 {
            return Err(Error::NonCanonicalEncoding);
        }
        proof {
            assert(mag >= 1 ==> !mag <= 0xffff_ffff_ffff_fffeu64) by (bit_vector);
            assert(((mag as i64) as u64) == mag && (mag as i64) < 0 ==> mag
                >= 0x8000_0000_0000_0000u64) by (bit_vector);
        }
        let v: i64 = if neg {
            (!mag + 1) as i64
        } else {
            mag as i64
        };
        proof {
            lemma_i64_sign(neg, mag, v);
        }
        Ok(v)
    }

    /// A 56-bit value through the size-class codec with floor zero and a
    /// three-bit size tag. Values above the 56-bit range are rejected.
    pub fn read_u56(&mut self) -> (r: Result<U56, Error>)
        requires
            old(self).wf(),
            old(self).bits_r.cursor() + 3 <= 8 * old(self).bits_r.spec_bytes().len(),
        ensures
            final(self).wf(),
            final(self).bits_r.spec_bytes() == old(self).bits_r.spec_bytes(),
            final(self).bytes_r.buf@ == old(self).bytes_r.buf@,
            final(self).bits_r.cursor() == old(self).bits_r.cursor() + 3,
            ({
                let seg = old(self).bits_r.all_bits().subrange(
                    old(self).bits_r.cursor(),
                    old(self).bits_r.cursor() + 3,
                );
                let size = bits_val(seg);
                let rem = old(self).bytes_r.remaining();
                &&& size > rem.len() ==> r == Err::<U56, Error>(Error::MalformedEncoding)
                    && final(self).bytes_r == old(self).bytes_r
                &&& size <= rem.len() ==> ({
                    let taken = rem.take(size as int);
                    &&& final(self).bytes_r.spec_position() == old(self).bytes_r.spec_position()
                        + size
                    &&& (r is Ok <==> !(size > 1 && taken.last() == 0) && le_val(taken)
                        <= U56_MAX)
                    &&& (size > 1 && taken.last() == 0 ==> r == Err::<U56, Error>(
                        Error::NonCanonicalEncoding,
                    ))
                    &&& (!(size > 1 && taken.last() == 0) && le_val(taken) > U56_MAX ==> r
                        == Err::<U56, Error>(Error::OverFlowError))
                    &&& (r matches Ok(v) ==> v.wf() && v.spec_value() as nat == le_val(taken)
                        && ((v.spec_value() != 0 || size == 0) ==> seg == enc_szc_bits(
                        v.spec_value() as nat,
                        0,
                        3,
                    ) && taken == enc_szc_bytes(v.spec_value() as nat, 0)))
                })
            }),
    {
        proof {
            assert(pow2(3) == 8) by {
                lemma2_to64();
            }
        }
        let v64 = match self.read_u64_bits(0, 3) {
            Ok(v) => v,
            Err(e) => {
                return Err(e);
            },
        };
        proof {
            let seg = old(self).bits_r.all_bits().subrange(
                old(self).bits_r.cursor(),
                old(self).bits_r.cursor() + 3,
            );
            let size = bits_val(seg);
            let rem = old(self).bytes_r.remaining();
            if size <= rem.len() && (v64 != 0 || size == 0) {
                lemma_szc_sound(v64, 0, size, rem.take(size as int));
            }
        }
        if v64 > U56_MAX {
            return Err(Error::OverFlowError);
        }
        Ok(U56(v64))
    }
}

} // verus!
