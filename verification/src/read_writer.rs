//! The composite reader/writer pairing one bit stream with one byte stream,
//! and the two variable-length integer codecs built on them: a self-delimiting
//! byte-oriented housekeeping varint whose terminal byte carries the stop
//! marker, and the size-class codec that stores a byte count in the bit
//! stream and the magnitude bytes, little-endian, in the byte stream.

use vstd::prelude::*;

use vstd::arithmetic::div_mod::lemma_div_denominator;
use vstd::arithmetic::power2::lemma2_to64;
use vstd::arithmetic::power2::lemma_pow2_adds;
use vstd::arithmetic::power2::lemma_pow2_pos;
use vstd::arithmetic::power2::pow2;
use vstd::bits::lemma_u64_shl_is_mul;
use vstd::bits::lemma_u64_shr_is_div;

use crate::bits;
use crate::bits::fits;
use crate::bits::lemma_fits_is_bound;
use crate::bits::val_bits;
use crate::error::Error;
use crate::fast;

verus! {

/// The housekeeping varint encoding of `v`: 7-bit groups, least significant
/// group first, the stop marker in the top bit of the terminal byte only.
pub open spec fn varint7(v: nat) -> Seq<u8>
    decreases v,
{
    if v < 128 {
        seq![(v + 128) as u8]
    } else {
        seq![(v % 128) as u8] + varint7(v / 128)
    }
}

/// The value carried by a varint group sequence, stop bits ignored.
pub open spec fn v7_val(s: Seq<u8>) -> nat
    decreases s.len(),
{
    if s.len() == 0 {
        0
    } else {
        ((s[0] as nat) % 128) + 128 * v7_val(s.drop_first())
    }
}

/// A complete varint group sequence: continuation bytes have the top bit
/// clear, the terminal byte has it set.
pub open spec fn v7_groups_ok(s: Seq<u8>) -> bool {
    &&& s.len() >= 1
    &&& s.last() >= 128
    &&& forall|i: int| 0 <= i < s.len() - 1 ==> #[trigger] s[i] < 128
}

/// Index of the first byte with the stop bit set, or `s.len()` if none.
pub open spec fn v7_term_idx(s: Seq<u8>) -> int
    decreases s.len(),
{
    if s.len() == 0 {
        0
    } else if s[0] >= 128 {
        0
    } else {
        1 + v7_term_idx(s.drop_first())
    }
}

/// The value carried by a little-endian byte sequence.
pub open spec fn le_val(s: Seq<u8>) -> nat
    decreases s.len(),
{
    if s.len() == 0 {
        0
    } else {
        (s[0] as nat) + 256 * le_val(s.drop_first())
    }
}

/// The `n`-byte little-endian representation of `v`.
pub open spec fn le_bytes(v: nat, n: nat) -> Seq<u8>
    decreases n,
{
    if n == 0 {
        seq![]
    } else {
        seq![(v % 256) as u8] + le_bytes(v / 256, (n - 1) as nat)
    }
}

/// The minimal number of little-endian bytes that hold `v`.
pub open spec fn le_len(v: nat) -> nat
    decreases v,
{
    if v == 0 {
        0
    } else {
        1 + le_len(v / 256)
    }
}

/// The byte count the size-class codec emits for magnitude `v` with floor
/// `min_size`: the minimal representation, never below the floor.
pub open spec fn szc_size(v: nat, min_size: nat) -> nat {
    if le_len(v) >= min_size {
        le_len(v)
    } else {
        min_size
    }
}

/// The bit-stream contribution of a size-class write: the byte count above
/// the floor, as a `bfs`-bit tag.
pub open spec fn enc_szc_bits(v: nat, min_size: nat, bfs: nat) -> Seq<bool> {
    val_bits((szc_size(v, min_size) - min_size) as u64, bfs)
}

/// The byte-stream contribution of a size-class write: the canonical
/// little-endian magnitude bytes.
pub open spec fn enc_szc_bytes(v: nat, min_size: nat) -> Seq<u8> {
    le_bytes(v, szc_size(v, min_size))
}

/// The representation has exactly the requested length.
pub proof fn lemma_le_bytes_len(v: nat, n: nat)
    ensures
        le_bytes(v, n).len() == n,
    decreases n,
{
    if n > 0 {
        lemma_le_bytes_len(v / 256, (n - 1) as nat);
    }
}

/// `v` fits `n` little-endian bytes exactly when it is below `pow2(8n)`.
pub proof fn lemma_le_len_le(v: nat, n: nat)
    ensures
        le_len(v) <= n <==> v < pow2(8 * n),
    decreases n,
{
    if n == 0 {
        assert(pow2(0) == 1) by {
            lemma2_to64();
        }
    } else {
        lemma_le_len_le(v / 256, (n - 1) as nat);
        lemma_pow2_adds(8 * (n - 1) as nat, 8);
        assert(pow2(8) == 256) by {
            lemma2_to64();
        }
        let p = pow2(8 * (n - 1) as nat);
        lemma_pow2_pos(8 * (n - 1) as nat);
        assert((v / 256 < p) <==> v < 256 * p) by (nonlinear_arith)
            requires
                p > 0,
                v >= 0,
        ;
        assert(8 * n == 8 * (n - 1) as nat + 8);
    }
}

/// A little-endian byte sequence carries a value below `pow2(8 * len)`.
pub proof fn lemma_le_val_bound(s: Seq<u8>)
    ensures
        le_val(s) < pow2(8 * s.len()),
    decreases s.len(),
{
    if s.len() == 0 {
        assert(pow2(0) == 1) by {
            lemma2_to64();
        }
    } else {
        lemma_le_val_bound(s.drop_first());
        let p = pow2(8 * (s.len() - 1) as nat);
        lemma_pow2_adds(8 * (s.len() - 1) as nat, 8);
        assert(pow2(8) == 256) by {
            lemma2_to64();
        }
        assert(s[0] + 256 * le_val(s.drop_first()) < 256 * p) by (nonlinear_arith)
            requires
                s[0] < 256,
                le_val(s.drop_first()) < p,
        ;
    }
}

/// Reading back the bytes of `v` yields `v`.
pub proof fn lemma_le_val_of_le_bytes(v: nat, n: nat)
    requires
        v < pow2(8 * n),
    ensures
        le_val(le_bytes(v, n)) == v,
    decreases n,
{
    if n == 0 {
        assert(pow2(0) == 1) by {
            lemma2_to64();
        }
    } else {
        let p = pow2(8 * (n - 1) as nat);
        lemma_pow2_adds(8 * (n - 1) as nat, 8);
        assert(pow2(8) == 256) by {
            lemma2_to64();
        }
        lemma_pow2_pos(8 * (n - 1) as nat);
        assert(v / 256 < p) by (nonlinear_arith)
            requires
                p > 0,
                v < 256 * p,
        ;
        lemma_le_val_of_le_bytes(v / 256, (n - 1) as nat);
        let b = le_bytes(v, n);
        assert(b.drop_first() =~= le_bytes(v / 256, (n - 1) as nat));
        vstd::arithmetic::div_mod::lemma_fundamental_div_mod(v as int, 256);
    }
}

/// A byte sequence is the little-endian representation of its own value.
pub proof fn lemma_le_bytes_of_val(s: Seq<u8>)
    ensures
        le_bytes(le_val(s), s.len()) == s,
    decreases s.len(),
{
    if s.len() > 0 {
        lemma_le_bytes_of_val(s.drop_first());
        let v = le_val(s);
        let v1 = le_val(s.drop_first());
        assert(v % 256 == s[0] && v / 256 == v1) by (nonlinear_arith)
            requires
                v == s[0] + 256 * v1,
                0 <= s[0] < 256,
                v1 >= 0,
        ;
        assert(le_bytes(le_val(s), s.len()) =~= s);
    }
}

/// A sequence whose last byte is nonzero is the minimal representation of
/// its value.
pub proof fn lemma_le_val_minimal(s: Seq<u8>)
    requires
        s.len() >= 1,
        s.last() != 0,
    ensures
        le_len(le_val(s)) == s.len(),
        le_val(s) >= 1,
    decreases s.len(),
{
    if s.len() == 1 {
        assert(s.drop_first().len() == 0);
        assert(le_val(s.drop_first()) == 0);
        assert(le_val(s) == s[0]);
        assert(s[0] as nat / 256 == 0) by (nonlinear_arith)
            requires
                0 <= s[0] < 256,
        ;
        assert(le_len(0) == 0);
        assert(le_len(s[0] as nat) == 1);
    } else {
        let rest = s.drop_first();
        assert(rest.last() == s.last());
        lemma_le_val_minimal(rest);
        let v = le_val(s);
        let v1 = le_val(rest);
        assert(v / 256 == v1 && v >= 256 * v1) by (nonlinear_arith)
            requires
                v == s[0] + 256 * v1,
                0 <= s[0] < 256,
                v1 >= 0,
        ;
    }
}

/// Appending a byte adds its value at the next little-endian position.
pub proof fn lemma_le_val_push(s: Seq<u8>, b: u8)
    ensures
        le_val(s.push(b)) == le_val(s) + (b as nat) * pow2(8 * s.len()),
    decreases s.len(),
{
    if s.len() == 0 {
        assert(s.push(b) =~= seq![b]);
        assert(seq![b].drop_first() =~= Seq::<u8>::empty());
        assert(le_val(Seq::<u8>::empty()) == 0);
        assert(le_val(s) == 0);
        assert(le_val(seq![b]) == b as nat + 256 * le_val(seq![b].drop_first()));
        assert(pow2(0) == 1) by {
            lemma2_to64();
        }
    } else {
        assert(s.push(b).drop_first() =~= s.drop_first().push(b));
        lemma_le_val_push(s.drop_first(), b);
        lemma_pow2_adds(8 * (s.len() - 1) as nat, 8);
        assert(pow2(8) == 256) by {
            lemma2_to64();
        }
        let p = pow2(8 * (s.len() - 1) as nat);
        assert(s[0] + 256 * (le_val(s.drop_first()) + (b as nat) * p) == s[0] + 256 * le_val(
            s.drop_first(),
        ) + (b as nat) * (256 * p)) by (nonlinear_arith);
    }
}

/// Appending a group adds its payload at the next varint position.
pub proof fn lemma_v7_val_push(s: Seq<u8>, b: u8)
    ensures
        v7_val(s.push(b)) == v7_val(s) + ((b as nat) % 128) * pow2(7 * s.len()),
    decreases s.len(),
{
    if s.len() == 0 {
        assert(s.push(b) =~= seq![b]);
        assert(seq![b].drop_first() =~= Seq::<u8>::empty());
        assert(v7_val(Seq::<u8>::empty()) == 0);
        assert(v7_val(s) == 0);
        assert(v7_val(seq![b]) == (b as nat) % 128 + 128 * v7_val(seq![b].drop_first()));
        assert(pow2(0) == 1) by {
            lemma2_to64();
        }
    } else {
        assert(s.push(b).drop_first() =~= s.drop_first().push(b));
        lemma_v7_val_push(s.drop_first(), b);
        lemma_pow2_adds(7 * (s.len() - 1) as nat, 7);
        assert(pow2(7) == 128) by {
            lemma2_to64();
        }
        let p = pow2(7 * (s.len() - 1) as nat);
        assert((s[0] as nat) % 128 + 128 * (v7_val(s.drop_first()) + ((b as nat) % 128) * p) == (
        s[0] as nat) % 128 + 128 * v7_val(s.drop_first()) + ((b as nat) % 128) * (128 * p))
            by (nonlinear_arith);
    }
}

/// The `n + 1`-byte representation extends the `n`-byte one.
#[verifier::rlimit(50)]
pub proof fn lemma_le_bytes_push(v: nat, n: nat)
    ensures
        le_bytes(v, n + 1) == le_bytes(v, n).push(((v / pow2(8 * n)) % 256) as u8),
    decreases n,
{
    if n == 0 {
        assert(pow2(0) == 1) by {
            lemma2_to64();
        }
        assert(le_bytes(v / 256, 0) =~= Seq::<u8>::empty());
        assert(le_bytes(v, 0) =~= Seq::<u8>::empty());
        assert(le_bytes(v, 1) =~= seq![(v % 256) as u8] + le_bytes(v / 256, 0));
        assert(v / 1 == v) by (nonlinear_arith);
        assert(pow2(8 * n) == 1);
        assert(v / pow2(8 * n) == v);
        assert(le_bytes(v, 1) =~= le_bytes(v, 0).push((v % 256) as u8));
        assert(le_bytes(v, n + 1) =~= le_bytes(v, n).push(((v / pow2(8 * n)) % 256) as u8));
    } else {
        lemma_le_bytes_push(v / 256, (n - 1) as nat);
        lemma_pow2_adds(8, 8 * (n - 1) as nat);
        assert(pow2(8) == 256) by {
            lemma2_to64();
        }
        lemma_pow2_pos(8 * (n - 1) as nat);
        lemma_div_denominator(v as int, 256, pow2(8 * (n - 1) as nat) as int);
        assert(8 * n == 8 + 8 * (n - 1) as nat);
        assert((v / 256) / pow2(8 * (n - 1) as nat) == v / pow2(8 * n));
        let x = ((v / pow2(8 * n)) % 256) as u8;
        assert(le_bytes(v, n + 1) =~= seq![(v % 256) as u8] + le_bytes(v / 256, n));
        assert(le_bytes(v / 256, n) == le_bytes(v / 256, (n - 1) as nat).push(x));
        assert(le_bytes(v, n).push(x) =~= (seq![(v % 256) as u8] + le_bytes(
            v / 256,
            (n - 1) as nat,
        )).push(x));
        assert((seq![(v % 256) as u8] + le_bytes(v / 256, (n - 1) as nat)).push(x) =~= seq![(v
            % 256) as u8] + le_bytes(v / 256, (n - 1) as nat).push(x));
        assert(le_bytes(v, n + 1) =~= le_bytes(v, n).push(x));
    }
}

/// The encoding of a varint value is a well-formed group sequence carrying
/// that value; for a nonzero value its terminal byte carries a nonzero
/// payload; the value zero is the lone stop byte.
pub proof fn lemma_varint7_props(v: nat)
    ensures
        v7_groups_ok(varint7(v)),
        v7_val(varint7(v)) == v,
        v >= 1 ==> varint7(v).last() != 128,
        v == 0 ==> varint7(v) =~= seq![128u8],
        v >= 128 ==> varint7(v).len() >= 2,
    decreases v,
{
    if v < 128 {
        assert(varint7(v) =~= seq![(v + 128) as u8]);
        let e = varint7(v);
        assert(e.drop_first().len() == 0);
        assert(v7_val(e.drop_first()) == 0);
        assert((e[0] as nat) == v + 128);
        assert((v + 128) % 128 == v) by (nonlinear_arith)
            requires
                0 <= v < 128,
        ;
    } else {
        lemma_varint7_props(v / 128);
        let s = varint7(v);
        let rest = varint7(v / 128);
        assert(s =~= seq![(v % 128) as u8] + rest);
        assert(s.drop_first() =~= rest);
        assert(v / 128 >= 1) by (nonlinear_arith)
            requires
                v >= 128,
        ;
        assert(v % 128 + 128 * (v / 128) == v) by {
            vstd::arithmetic::div_mod::lemma_fundamental_div_mod(v as int, 128);
        }
    }
}

/// The number of varint groups of any value below `pow2(7k)` is at most `k`.
pub proof fn lemma_varint7_len(v: nat, k: nat)
    requires
        k >= 1,
        v < pow2(7 * k),
    ensures
        varint7(v).len() <= k,
    decreases k,
{
    if v < 128 {
    } else {
        assert(k >= 2) by {
            assert(pow2(7) == 128) by {
                lemma2_to64();
            }
        }
        let p = pow2(7 * (k - 1) as nat);
        lemma_pow2_adds(7, 7 * (k - 1) as nat);
        assert(pow2(7) == 128) by {
            lemma2_to64();
        }
        lemma_pow2_pos(7 * (k - 1) as nat);
        assert(v / 128 < p) by (nonlinear_arith)
            requires
                p > 0,
                v < 128 * p,
        ;
        lemma_varint7_len(v / 128, (k - 1) as nat);
    }
}

/// A canonical group sequence (terminal payload nonzero unless it is the
/// only byte) is the encoding of its own value.
pub proof fn lemma_v7_canon(s: Seq<u8>)
    requires
        v7_groups_ok(s),
        s.len() == 1 || s.last() != 128,
    ensures
        varint7(v7_val(s)) == s,
        s.len() >= 2 ==> v7_val(s) >= 128,
        s.len() == 1 && s.last() != 128 ==> v7_val(s) >= 1,
    decreases s.len(),
{
    if s.len() == 1 {
        assert(s.drop_first().len() == 0);
        assert(v7_val(s.drop_first()) == 0);
        assert(v7_val(s) == (s[0] as nat) % 128);
        assert((s[0] as nat) % 128 == s[0] - 128) by (nonlinear_arith)
            requires
                128 <= s[0] < 256,
        ;
        assert(varint7(v7_val(s)) =~= s);
    } else {
        let rest = s.drop_first();
        assert(rest.last() == s.last());
        assert(forall|i: int| 0 <= i < rest.len() - 1 ==> #[trigger] rest[i] < 128) by {
            assert(forall|i: int| 0 <= i < rest.len() - 1 ==> rest[i] == s[i + 1]);
        }
        lemma_v7_canon(rest);
        let v1 = v7_val(rest);
        assert(v1 >= 1);
        let v = v7_val(s);
        assert(s[0] < 128);
        assert((s[0] as nat) % 128 == s[0]) by (nonlinear_arith)
            requires
                0 <= s[0] < 128,
        ;
        assert(v % 128 == s[0] && v / 128 == v1 && v >= 128) by (nonlinear_arith)
            requires
                v == s[0] + 128 * v1,
                0 <= s[0] < 128,
                v1 >= 1,
        ;
        assert(varint7(v) =~= seq![(v % 128) as u8] + varint7(v1));
        assert(varint7(v) =~= s);
    }
}

/// Where the continuation bytes end, the first terminal index stands.
pub proof fn lemma_v7_term_idx(s: Seq<u8>, i: int)
    requires
        0 <= i <= s.len(),
        forall|j: int| 0 <= j < i ==> #[trigger] s[j] < 128,
        i < s.len() ==> s[i] >= 128,
    ensures
        v7_term_idx(s) == i,
    decreases s.len(),
{
    if s.len() > 0 && s[0] < 128 {
        let rest = s.drop_first();
        assert(forall|j: int| 0 <= j < i - 1 ==> #[trigger] rest[j] < 128) by {
            assert(forall|j: int| 0 <= j < i - 1 ==> rest[j] == s[j + 1]);
        }
        lemma_v7_term_idx(rest, i - 1);
    }
}

/// A buffer that begins with the encoding of `w` parses exactly to `w`:
/// its first terminal closes that encoding and the prefix is canonical.
pub proof fn lemma_v7_parse_prefix(w: nat, s: Seq<u8>)
    requires
        varint7(w).is_prefix_of(s),
    ensures
        v7_term_idx(s) == varint7(w).len() - 1,
        s.take(varint7(w).len() as int) == varint7(w),
        v7_term_idx(s) == 0 || s[v7_term_idx(s)] != 128,
        v7_val(s.take(varint7(w).len() as int)) == w,
{
    lemma_varint7_props(w);
    let e = varint7(w);
    let l = e.len() as int;
    assert(forall|j: int| 0 <= j < l ==> #[trigger] s[j] == e[j]);
    lemma_v7_term_idx(s, l - 1);
    assert(s.take(l) =~= e);
}

/// Writes the housekeeping varint encoding of `v` to the byte stream:
/// 7-bit groups, least significant first, stop bit on the terminal byte.
pub fn write_uint64_compact(bytes_w: &mut fast::Writer, v: u64)
    ensures
        final(bytes_w).buf@ == old(bytes_w).buf@ + varint7(v as nat),
{
    let ghost v0 = v;
    let mut v: u64 = v;
    loop
        invariant_except_break
            old(bytes_w).buf@ + varint7(v0 as nat) == bytes_w.buf@ + varint7(v as nat),
        ensures
            bytes_w.buf@ == old(bytes_w).buf@ + varint7(v0 as nat),
        decreases v,
    {
        let ghost vh = v;
        let ghost buf_h = bytes_w.buf@;
        let mut chunk: u64 = v & 0b01111111;
        v = v >> 7;
        if v == 0 {
            // stop flag
            chunk = chunk | 0b10000000;
        }
        bytes_w.write_byte(chunk as u8);
        proof {
            if vh < 128 {
                assert(((vh & 0x7f) | 0x80) as u8 == (vh + 128) as u8 && vh >> 7 == 0)
                    by (bit_vector)
                    requires
                        vh < 128,
                ;
                assert(varint7(vh as nat) =~= seq![(vh + 128) as u8]);
                assert(bytes_w.buf@ =~= buf_h + varint7(vh as nat));
                assert(bytes_w.buf@ =~= old(bytes_w).buf@ + varint7(v0 as nat));
            } else {
                assert((vh & 0x7f) as u8 == (vh % 128) as u8 && vh >> 7 == vh / 128 && vh >> 7
                    != 0 && vh >> 7 < vh) by (bit_vector)
                    requires
                        vh >= 128,
                ;
                assert(varint7(vh as nat) =~= seq![((vh as nat) % 128) as u8] + varint7(
                    (vh as nat) / 128,
                ));
                assert(bytes_w.buf@ + varint7(v as nat) =~= buf_h + varint7(vh as nat));
                assert(bytes_w.buf@ + varint7(v as nat) =~= old(bytes_w).buf@ + varint7(
                    v0 as nat,
                ));
            }
        }
        if v == 0 {
            break ;
        }
    }
}

/// Parses a housekeeping varint from the byte stream. Succeeds exactly when
/// a stop byte arrives before the buffer ends and the encoding is canonical
/// (no redundant zero terminal group beyond the first byte); the consumed
/// prefix is then the encoding of the returned value.
pub fn read_uint64_compact(bytes_r: &mut fast::Reader) -> (r: Result<u64, Error>)
    requires
        old(bytes_r).wf(),
        old(bytes_r).remaining().len() <= 9,
    ensures
        final(bytes_r).wf(),
        final(bytes_r).buf@ == old(bytes_r).buf@,
        ({
            let s = old(bytes_r).remaining();
            let t = v7_term_idx(s);
            &&& (r is Ok <==> t < s.len() && (t == 0 || s[t] != 128))
            &&& (r matches Ok(v) ==> s.take(t + 1) == varint7(v as nat)
                && final(bytes_r).spec_position() == old(bytes_r).spec_position() + t + 1)
            &&& (r == Err::<u64, Error>(Error::MalformedEncoding) <==> t == s.len())
            &&& (r == Err::<u64, Error>(Error::NonCanonicalEncoding) <==> t >= 1 && t < s.len()
                && s[t] == 128)
        }),
{
    let ghost s = old(bytes_r).remaining();
    let mut v: u64 = 0;
    let mut stop = false;
    let mut i: usize = 0;
    proof {
        assert(0u64 >> 0u64 == 0) by (bit_vector);
        assert(s.take(0).len() == 0);
        assert(v7_val(s.take(0)) == 0);
    }
    while !stop
        invariant
            bytes_r.wf(),
            bytes_r.buf@ == old(bytes_r).buf@,
            s == old(bytes_r).remaining(),
            s.len() <= 9,
            i <= s.len(),
            bytes_r.spec_position() == old(bytes_r).spec_position() + i,
            v as nat == v7_val(s.take(i as int)),
            !stop ==> forall|j: int| 0 <= j < i ==> #[trigger] s[j] < 128,
            !stop ==> fits(v, (7 * i) as nat),
            stop ==> {
                &&& i >= 1
                &&& (forall|j: int| 0 <= j < i - 1 ==> #[trigger] s[j] < 128)
                &&& s[i - 1] >= 128
                &&& (i == 1 || s[i - 1] != 128)
            },
        decreases s.len() - i,
    {
        let chunk_byte = match bytes_r.read_byte() {
            Ok(b) => b,
            Err(e) => {
                proof {
                    lemma_v7_term_idx(s, i as int);
                }
                return Err(e);
            },
        };
        proof {
            assert(chunk_byte == s[i as int]);
        }
        let chunk: u64 = chunk_byte as u64;
        stop = (chunk & 0b10000000) != 0;
        let word: u64 = chunk & 0b01111111;
        let sh: u64 = (7 * i) as u64;
        let ghost vh = v;
        v = v | (word << sh);
        proof {
            assert(word == (chunk_byte as u64) % 128 && word < 128 && ((chunk_byte as u64)
                & 0b10000000 != 0) == (chunk_byte >= 128)) by (bit_vector)
                requires
                    word == (chunk_byte as u64) & 0b01111111,
                    chunk == chunk_byte as u64,
            ;
            assert(v == vh + (word << sh) && (word << sh) == (word as nat) * pow2(sh as nat)
                && fits(v, (7 * (i + 1)) as nat)) by {
                assert(vh >> sh == 0 && sh <= 56) by {
                    assert(fits(vh, (7 * i) as nat));
                }
                assert((vh | (word << sh)) == vh + (word << sh) && (vh | (word << sh)) >> ((sh
                    + 7) as u64) == 0) by (bit_vector)
                    requires
                        vh >> sh == 0,
                        word < 128,
                        sh <= 56,
                ;
                assert(pow2(sh as nat) <= pow2(56)) by {
                    if (sh as nat) < 56 {
                        vstd::arithmetic::power2::lemma_pow2_strictly_increases(sh as nat, 56);
                    }
                }
                lemma_pow2_adds(7, 56);
                lemma2_to64();
                vstd::arithmetic::power2::lemma2_to64_rest();
                lemma_pow2_pos(56);
                lemma_pow2_pos(sh as nat);
                assert((word as nat) * pow2(sh as nat) < pow2(63)) by (nonlinear_arith)
                    requires
                        word < 128,
                        pow2(sh as nat) <= pow2(56),
                        pow2(63) == 128 * pow2(56),
                        pow2(56) > 0,
                        pow2(sh as nat) > 0,
                ;
                lemma_u64_shl_is_mul(word, sh);
            }
            assert(s.take(i + 1) =~= s.take(i as int).push(s[i as int]));
            lemma_v7_val_push(s.take(i as int), s[i as int]);
            assert(pow2(sh as nat) == pow2(7 * i as nat));
            assert(v as nat == v7_val(s.take(i + 1)));
        }
        if i > 0 && stop && word == 0 {
            proof {
                lemma_v7_term_idx(s, i as int);
                assert(chunk_byte == 128) by (bit_vector)
                    requires
                        (chunk_byte as u64) & 0b01111111 == 0,
                        chunk_byte >= 128,
                ;
                assert(s[i as int] == 128);
            }
            return Err(Error::NonCanonicalEncoding);
        }
        i = i + 1;
    }
    proof {
        lemma_v7_term_idx(s, i - 1);
        let taken = s.take(i as int);
        assert(taken.last() == s[i - 1] && taken.len() == i);
        assert(forall|j: int| 0 <= j < taken.len() - 1 ==> #[trigger] taken[j] < 128);
        lemma_v7_canon(taken);
    }
    Ok(v)
}

/// Writes the little-endian bytes of `v` to the byte stream: the minimal
/// representation, padded with zero bytes up to `min_size`; returns the
/// byte count written.
pub fn write_uint64_bit_compact(bytes_w: &mut fast::Writer, v: u64, min_size: usize) -> (size:
    usize)
    requires
        min_size <= 8,
    ensures
        size as nat == szc_size(v as nat, min_size as nat),
        size <= 8,
        final(bytes_w).buf@ == old(bytes_w).buf@ + le_bytes(v as nat, size as nat),
{
    let ghost v0 = v;
    let mut size: usize = 0;
    let mut cur: u64 = v;
    proof {
        assert(pow2(0) == 1) by {
            lemma2_to64();
        }
        assert(le_bytes(v0 as nat, 0) =~= Seq::<u8>::empty());
        assert(bytes_w.buf@ =~= old(bytes_w).buf@ + le_bytes(v0 as nat, 0));
        assert(v0 as nat / 1 == v0 as nat);
    }
    while size < min_size || cur != 0
        invariant
            min_size <= 8,
            size <= 8,
            cur as nat == v0 as nat / pow2((8 * size) as nat),
            bytes_w.buf@ == old(bytes_w).buf@ + le_bytes(v0 as nat, size as nat),
            size > min_size ==> v0 as nat / pow2((8 * (size - 1)) as nat) != 0,
        decreases
            (if size < min_size {
                (min_size - size) as int
            } else {
                0int
            }),
            cur,
    {
        let ghost size_h = size;
        let ghost cur_h = cur;
        proof {
            // The loop cannot pass eight bytes: beyond them nothing is left.
            if size == 8 {
                assert((v0 as nat) < pow2(64)) by {
                    lemma2_to64();
                    vstd::arithmetic::power2::lemma_pow2_strictly_increases(63, 64);
                    assert(v0 <= u64::MAX);
                }
                lemma_pow2_pos(64);
                assert(v0 as nat / pow2(64) == 0) by (nonlinear_arith)
                    requires
                        (v0 as nat) < pow2(64),
                        pow2(64) > 0,
                ;
            }
        }
        bytes_w.write_byte(cur as u8);
        size = size + 1;
        cur = cur >> 8;
        proof {
            lemma_u64_shr_is_div(cur_h, 8);
            assert(pow2(8) == 256) by {
                lemma2_to64();
            }
            lemma_pow2_pos((8 * size_h) as nat);
            lemma_pow2_adds((8 * size_h) as nat, 8);
            lemma_div_denominator(v0 as int, pow2((8 * size_h) as nat) as int, 256);
            assert(cur as nat == v0 as nat / pow2((8 * size) as nat));
            lemma_le_bytes_push(v0 as nat, size_h as nat);
            assert((cur_h as nat) % 256 == (v0 as nat / pow2((8 * size_h) as nat)) % 256);
            assert(cur_h as u8 == ((cur_h as nat) % 256) as u8) by (bit_vector);
            assert(le_bytes(v0 as nat, size as nat) =~= le_bytes(v0 as nat, size_h as nat).push(
                cur_h as u8,
            ));
            assert(bytes_w.buf@ =~= old(bytes_w).buf@ + le_bytes(v0 as nat, size as nat));
        }
    }
    proof {
        lemma_pow2_pos((8 * size) as nat);
        assert((v0 as nat) < pow2((8 * size) as nat)) by (nonlinear_arith)
            requires
                v0 as nat / pow2((8 * size) as nat) == 0,
                pow2((8 * size) as nat) > 0,
        ;
        lemma_le_len_le(v0 as nat, size as nat);
        if size > min_size {
            lemma_pow2_pos((8 * (size - 1)) as nat);
            assert(!((v0 as nat) < pow2((8 * (size - 1)) as nat))) by (nonlinear_arith)
                requires
                    v0 as nat / pow2((8 * (size - 1)) as nat) != 0,
                    pow2((8 * (size - 1)) as nat) > 0,
            ;
            lemma_le_len_le(v0 as nat, (size - 1) as nat);
        }
    }
    size
}

/// Reads `size` little-endian bytes as a value. Fails with
/// `MalformedEncoding` when fewer bytes remain, and with
/// `NonCanonicalEncoding` when a multi-byte magnitude carries a superfluous
/// leading zero byte (its most significant byte is zero).
pub fn read_uint64_bit_compact(bytes_r: &mut fast::Reader, size: usize) -> (r: Result<u64, Error>)
    requires
        old(bytes_r).wf(),
        size <= 8,
    ensures
        final(bytes_r).wf(),
        final(bytes_r).buf@ == old(bytes_r).buf@,
        size > old(bytes_r).remaining().len() ==> r == Err::<u64, Error>(Error::MalformedEncoding)
            && *final(bytes_r) == *old(bytes_r),
        size <= old(bytes_r).remaining().len() ==> ({
            let taken = old(bytes_r).remaining().take(size as int);
            &&& final(bytes_r).spec_position() == old(bytes_r).spec_position() + size
            &&& (r is Ok <==> !(size > 1 && taken.last() == 0))
            &&& (r is Err ==> r == Err::<u64, Error>(Error::NonCanonicalEncoding))
            &&& (r matches Ok(v) ==> {
                &&& v as nat == le_val(taken)
                &&& (v as nat) < pow2((8 * size) as nat)
                &&& le_bytes(v as nat, size as nat) == taken
                &&& (size > 1 ==> le_len(v as nat) == size)
            })
        }),
{
    let mut v: u64 = 0;
    let mut last: u8 = 0;

    let buf = match bytes_r.read(size) {
        Ok(b) => b,
        Err(e) => {
            return Err(e);
        },
    };
    let ghost taken = old(bytes_r).remaining().take(size as int);
    proof {
        assert(pow2(0) == 1) by {
            lemma2_to64();
        }
        assert(le_val(buf@.take(0)) == 0) by {
            assert(buf@.take(0).len() == 0);
        }
    }
    let mut i: usize = 0;
    while i < size
        invariant
            buf@ == taken,
            buf@.len() == size,
            size <= 8,
            i <= size,
            v as nat == le_val(buf@.take(i as int)),
            (v as nat) < pow2((8 * i) as nat),
            last == (if i == 0 {
                0u8
            } else {
                buf@[i - 1]
            }),
        decreases size - i,
    {
        let b = *vstd::slice::slice_index_get(buf, i);
        let sh: u64 = (8 * i) as u64;
        let ghost vh = v;
        v = v | ((b as u64) << sh);
        last = b;
        proof {
            lemma_fits_is_bound(vh, (8 * i) as nat);
            assert(vh >> sh == 0 && sh <= 56) by {
                assert(fits(vh, (8 * i) as nat));
            }
            assert((vh | ((b as u64) << sh)) == vh + ((b as u64) << sh) && (vh | ((b as u64)
                << sh)) >> ((sh + 8) as u64) == 0) by (bit_vector)
                requires
                    vh >> sh == 0,
                    sh <= 56,
            ;
            assert(pow2(sh as nat) <= pow2(56)) by {
                if (sh as nat) < 56 {
                    vstd::arithmetic::power2::lemma_pow2_strictly_increases(sh as nat, 56);
                }
            }
            lemma_pow2_adds(8, 56);
            lemma2_to64();
            vstd::arithmetic::power2::lemma2_to64_rest();
            lemma_pow2_pos(56);
            lemma_pow2_pos(sh as nat);
            assert(((b as u64) as nat) * pow2(sh as nat) < pow2(64)) by (nonlinear_arith)
                requires
                    (b as u64) < 256,
                    pow2(sh as nat) <= pow2(56),
                    pow2(64) == 256 * pow2(56),
                    pow2(56) > 0,
                    pow2(sh as nat) > 0,
            ;
            lemma_u64_shl_is_mul(b as u64, sh);
            assert(buf@.take(i + 1) =~= buf@.take(i as int).push(buf@[i as int]));
            lemma_le_val_push(buf@.take(i as int), buf@[i as int]);
            assert(pow2(sh as nat) == pow2((8 * i) as nat));
            assert(v as nat == le_val(buf@.take(i + 1)));
            if 8 * (i + 1) < 64 {
                lemma_fits_is_bound(v, (8 * (i + 1)) as nat);
                assert(fits(v, (8 * (i + 1)) as nat));
            } else {
                assert((v as nat) < pow2(64)) by {
                    lemma2_to64();
                    vstd::arithmetic::power2::lemma_pow2_strictly_increases(63, 64);
                }
                assert(pow2((8 * (i + 1)) as nat) == pow2(64));
            }
        }
        i = i + 1;
    }

    proof {
        assert(buf@.take(size as int) =~= buf@);
    }
    if size > 1 && last == 0 {
        return Err(Error::NonCanonicalEncoding);
    }

    proof {
        lemma_le_bytes_of_val(buf@);
        if size > 1 {
            lemma_le_val_minimal(buf@);
        }
    }
    Ok(v)
}

/// The composite writer: exactly one bit stream plus one byte stream, the
/// single object threaded through all per-type encode calls.
#[derive(Clone, Debug, PartialEq)]
pub struct Writer {
    pub bits_w: bits::Writer,
    pub bytes_w: fast::Writer,
}

/// The composite reader over one flat input buffer already split into its
/// bit-stream and byte-stream regions.
#[derive(Clone, Debug, PartialEq)]
pub struct Reader<'a> {
    pub bits_r: bits::Reader<'a>,
    pub bytes_r: fast::Reader<'a>,
}

impl Writer {
    pub open spec fn wf(self) -> bool {
        self.bits_w.wf()
    }

    /// A fresh writer with both streams empty.
    pub fn new() -> (r: Self)
        ensures
            r.wf(),
            r.bits_w@ == Seq::<bool>::empty(),
            r.bits_w.spec_bytes() == Seq::<u8>::empty(),
            r.bytes_w.buf@ == Seq::<u8>::empty(),
    {
        let bbits: Vec<u8> = Vec::with_capacity(32);
        let bbytes: Vec<u8> = Vec::with_capacity(200);
        let r = Self { bits_w: bits::Writer::new(bbits), bytes_w: fast::Writer::new(bbytes) };
        proof {
            assert(r.bits_w@ =~= Seq::<bool>::empty());
        }
        r
    }

    /// Consumes the writer: frames both sub-streams and the length trailer
    /// into one flat buffer. No writes after this.
    pub fn output(self) -> (r: Vec<u8>)
        ensures
            r@ == crate::binary::framed(self.bits_w.spec_bytes(), self.bytes_w.buf@),
    {
        let Writer { bits_w, bytes_w } = self;
        crate::binary::binary_from_cser(bits_w.view_bytes(), bytes_w.buf)
    }

    /// Size-class write: the magnitude bytes of `v` go to the byte stream,
    /// the byte count above the floor goes to the bit stream as a
    /// `bits_for_size`-bit tag.
    pub fn write_u64_bits(&mut self, min_size: usize, bits_for_size: usize, v: u64)
        requires
            old(self).wf(),
            min_size <= 8,
            1 <= bits_for_size <= 64,
            szc_size(v as nat, min_size as nat) <= 8,
            szc_size(v as nat, min_size as nat) - min_size < pow2(bits_for_size as nat),
        ensures
            final(self).wf(),
            final(self).bits_w@ == old(self).bits_w@ + val_bits(
                (szc_size(v as nat, min_size as nat) - min_size) as u64,
                bits_for_size as nat,
            ),
            final(self).bytes_w.buf@ == old(self).bytes_w.buf@ + le_bytes(
                v as nat,
                szc_size(v as nat, min_size as nat),
            ),
    {
        let size = write_uint64_bit_compact(&mut self.bytes_w, v, min_size);
        proof {
            if bits_for_size < 64 {
                lemma_fits_is_bound((size - min_size) as u64, bits_for_size as nat);
            }
        }
        self.bits_w.write(bits_for_size, (size - min_size) as u64)
    }
}

impl Default for Writer {
    /// Same as `Writer::new`.
    fn default() -> (r: Self)
        ensures
            r.wf(),
            r.bits_w@ == Seq::<bool>::empty(),
            r.bits_w.spec_bytes() == Seq::<u8>::empty(),
            r.bytes_w.buf@ == Seq::<u8>::empty(),
    {
        Self::new()
    }
}

impl<'a> Reader<'a> {
    pub open spec fn wf(self) -> bool {
        self.bits_r.wf() && self.bytes_r.wf()
    }

    /// Size-class read: a `bits_for_size`-bit tag from the bit stream gives
    /// the byte count above the floor; that many little-endian bytes from
    /// the byte stream give the value. A multi-byte magnitude whose most
    /// significant byte is zero is rejected as non-canonical.
    pub fn read_u64_bits(&mut self, min_size: usize, bits_for_size: usize) -> (r: Result<
        u64,
        Error,
    >)
        requires
            old(self).wf(),
            1 <= bits_for_size <= 3,
            min_size + pow2(bits_for_size as nat) <= 9,
            old(self).bits_r.cursor() + bits_for_size <= 8 * old(self).bits_r.spec_bytes().len(),
        ensures
            final(self).wf(),
            final(self).bits_r.spec_bytes() == old(self).bits_r.spec_bytes(),
            final(self).bytes_r.buf@ == old(self).bytes_r.buf@,
            final(self).bits_r.cursor() == old(self).bits_r.cursor() + bits_for_size,
            ({
                let seg = old(self).bits_r.all_bits().subrange(
                    old(self).bits_r.cursor(),
                    old(self).bits_r.cursor() + bits_for_size,
                );
                let size = bits::bits_val(seg) + min_size;
                &&& seg == val_bits((size - min_size) as u64, bits_for_size as nat)
                &&& size > old(self).bytes_r.remaining().len() ==> r == Err::<u64, Error>(
                    Error::MalformedEncoding,
                ) && final(self).bytes_r == old(self).bytes_r
                &&& size <= old(self).bytes_r.remaining().len() ==> ({
                    let taken = old(self).bytes_r.remaining().take(size as int);
                    &&& final(self).bytes_r.spec_position() == old(self).bytes_r.spec_position()
                        + size
                    &&& (r is Ok <==> !(size > 1 && taken.last() == 0))
                    &&& (r is Err ==> r == Err::<u64, Error>(Error::NonCanonicalEncoding))
                    &&& (r matches Ok(v) ==> {
                        &&& v as nat == le_val(taken)
                        &&& (v as nat) < pow2((8 * size) as nat)
                        &&& le_bytes(v as nat, size as nat) == taken
                        &&& (size > 1 ==> le_len(v as nat) == size)
                    })
                })
            }),
    {
        let tag = self.bits_r.read(bits_for_size);
        proof {
            lemma_fits_is_bound(tag, bits_for_size as nat);
            assert(pow2(bits_for_size as nat) <= 8) by {
                lemma2_to64();
            }
            bits::lemma_bits_val_of_val_bits(tag, bits_for_size as nat);
        }
        let size = tag as usize + min_size;
        read_uint64_bit_compact(&mut self.bytes_r, size)
    }
}

} // verus!
