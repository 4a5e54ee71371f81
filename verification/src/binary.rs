//! Framing and canonicalization: packing the two sub-streams plus a length
//! trailer into one flat buffer, the inverse split that parses the trailer
//! from the end of the buffer, and the post-decode exhaustion check that
//! makes encodings canonical.

use vstd::prelude::*;

use crate::bits;
use crate::error::Error;
use crate::fast;
use crate::read_writer::read_uint64_compact;
use crate::read_writer::write_uint64_compact;
use crate::read_writer::Reader;
use crate::read_writer::lemma_v7_parse_prefix;
use crate::read_writer::lemma_varint7_props;
use crate::read_writer::v7_term_idx;
use crate::read_writer::v7_val;
use crate::read_writer::varint7;

verus! {

/// The byte sequence reversed.
pub open spec fn rev_bytes(s: Seq<u8>) -> Seq<u8> {
    Seq::new(s.len(), |i: int| s[s.len() - 1 - i])
}

/// The flat buffer framing the two sub-streams: byte-stream payload, then
/// bit-stream payload, then the reversed varint encoding of the bit-stream
/// length. Reversal lets the decoder recover the trailer from the tail
/// without a forward scan.
pub open spec fn framed(bbits: Seq<u8>, bbytes: Seq<u8>) -> Seq<u8> {
    bbytes + bbits + rev_bytes(varint7(bbits.len()))
}

/// The final bytes of the buffer that may hold the trailer: nine are enough
/// for any bit-stream length expressible in 63 bits, an invariant of the
/// format.
pub open spec fn trailer_window(raw: Seq<u8>) -> Seq<u8> {
    if raw.len() > 9 {
        raw.skip(raw.len() - 9)
    } else {
        raw
    }
}

/// The inverse of framing: parse the reversed trailer from the tail, split
/// the rest into byte-stream and bit-stream regions. `None` where the
/// trailer is unparseable or the declared bit-stream length exceeds what is
/// left; the first component is the bit-stream region.
pub open spec fn unframe(raw: Seq<u8>) -> Option<(Seq<u8>, Seq<u8>)> {
    let rw = rev_bytes(trailer_window(raw));
    let t = v7_term_idx(rw);
    if t < rw.len() && (t == 0 || rw[t] != 128) {
        let l = v7_val(rw.take(t + 1));
        let content_len = raw.len() - (t + 1);
        if l <= content_len {
            Some(
                (
                    raw.take(content_len as int).skip(content_len - l),
                    raw.take(content_len - l),
                ),
            )
        } else {
            None
        }
    } else {
        None
    }
}

/// Framing invertibility: un-framing a framed buffer yields the two
/// sub-streams back, whenever the bit-stream length fits the nine-byte
/// trailer window.
pub proof fn lemma_unframe_frame(bbits: Seq<u8>, bbytes: Seq<u8>)
    requires
        bbits.len() < vstd::arithmetic::power2::pow2(63),
    ensures
        unframe(framed(bbits, bbytes)) == Some((bbits, bbytes)),
{
    crate::read_writer::lemma_varint7_len(bbits.len(), 9);
    let e = varint7(bbits.len());
    let k = e.len() as int;
    let raw = framed(bbits, bbytes);
    let b_len = bbytes.len() as int;
    let l_len = bbits.len() as int;
    lemma_varint7_props(bbits.len());
    assert(k >= 1);
    assert(raw.len() == b_len + l_len + k);
    let w = trailer_window(raw);
    let rw = rev_bytes(w);
    assert(w.len() >= k && w.len() <= raw.len());
    // The last k bytes of the window are the reversed encoding, so the
    // reversed window begins with the encoding itself.
    assert(forall|i: int| 0 <= i < k ==> #[trigger] rw[i] == e[i]) by {
        assert(forall|i: int|
            0 <= i < k ==> #[trigger] rw[i] == raw[raw.len() - 1 - i] && raw[raw.len() - 1 - i]
                == rev_bytes(e)[k - 1 - i] && rev_bytes(e)[k - 1 - i] == e[i]);
    }
    assert(e.is_prefix_of(rw)) by {
        assert(rw.take(k) =~= e);
    }
    lemma_v7_parse_prefix(bbits.len(), rw);
    let t = v7_term_idx(rw);
    assert(t == k - 1);
    assert(v7_val(rw.take(t + 1)) == bbits.len());
    let content_len = raw.len() - (t + 1);
    assert(content_len == b_len + l_len);
    assert(raw.take(content_len as int).skip(content_len - l_len) =~= bbits);
    assert(raw.take(content_len - l_len) =~= bbytes);
}

/// The last `cap` bytes of `b`, or all of `b` when it is shorter.
fn tail(b: &[u8], cap: usize) -> (r: &[u8])
    ensures
        r@ == (if b@.len() > cap {
            b@.skip(b@.len() - cap)
        } else {
            b@
        }),
{
    if b.len() > cap {
        vstd::slice::slice_subrange(b, b.len() - cap, b.len())
    } else {
        b
    }
}

/// A reversed copy of the bytes.
fn reversed(src: &[u8]) -> (r: Vec<u8>)
    ensures
        r@ == rev_bytes(src@),
{
    let mut out: Vec<u8> = Vec::new();
    let mut i: usize = src.len();
    while i > 0
        invariant
            i <= src@.len(),
            out@.len() == src@.len() - i,
            forall|j: int| 0 <= j < out@.len() ==> #[trigger] out@[j] == src@[src@.len() - 1 - j],
        decreases i,
    {
        i = i - 1;
        out.push(*vstd::slice::slice_index_get(src, i));
    }
    proof {
        assert(out@ =~= rev_bytes(src@));
    }
    out
}

/// Packs body bytes and bits into raw
pub fn binary_from_cser(bbits: &[u8], bbytes: Vec<u8>) -> (r: Vec<u8>)
    ensures
        r@ == framed(bbits@, bbytes@),
{
    let ghost by0 = bbytes@;
    let mut body_bytes = fast::Writer::new(bbytes);
    body_bytes.write(bbits);
    // write bits size
    let mut size_writer = fast::Writer::new(Vec::with_capacity(4));
    write_uint64_compact(&mut size_writer, bbits.len() as u64);
    let size_buf = size_writer.buf;
    let rev_buf = reversed(size_buf.as_slice());
    body_bytes.write(rev_buf.as_slice());
    proof {
        assert(body_bytes.buf@ =~= framed(bbits@, by0));
    }
    body_bytes.buf
}

/// Unpacks raw on body bytes and bits. The trailer is parsed from the tail;
/// fails with `MalformedEncoding` when no canonical trailer is there or the
/// declared bit-stream length exceeds the remaining bytes.
pub fn binary_to_cser<'b>(raw: &'b [u8]) -> (r: Result<(&'b [u8], &'b [u8]), Error>)
    ensures
        r is Ok <==> unframe(raw@) is Some,
        r matches Ok(p) ==> {
            &&& unframe(raw@) == Some((p.0@, p.1@))
            &&& raw@ == p.1@ + p.0@ + rev_bytes(varint7(p.0@.len()))
        },
{
    // read bitsArray size
    let window = tail(raw, 9);
    let bits_size_buf = reversed(window);
    let mut bits_size_reader = fast::Reader::new(bits_size_buf.as_slice());
    let ghost rw = rev_bytes(trailer_window(raw@));
    proof {
        assert(bits_size_buf@ == rw);
        assert(bits_size_reader.remaining() =~= bits_size_buf@);
    }
    let bits_size = match read_uint64_compact(&mut bits_size_reader) {
        Ok(v) => v,
        Err(_) => {
            return Err(Error::MalformedEncoding);
        },
    };
    let consumed = bits_size_reader.position();
    let content_len = raw.len() - consumed;
    let ghost t = v7_term_idx(rw);
    proof {
        lemma_varint7_props(bits_size as nat);
        assert(v7_val(rw.take(t + 1)) == bits_size as nat);
    }
    if bits_size > content_len as u64 {
        return Err(Error::MalformedEncoding);
    }
    let bits_size_c: usize = bits_size as usize;

    let bbytes = vstd::slice::slice_subrange(raw, 0, content_len - bits_size_c);
    let bbits = vstd::slice::slice_subrange(raw, content_len - bits_size_c, content_len);
    proof {
        assert(bbits@ =~= raw@.take(content_len as int).skip(content_len - bits_size_c));
        assert(bbytes@ =~= raw@.take((content_len - bits_size_c) as int));
        // the consumed trailer bytes are the reversed canonical encoding
        assert(raw@ =~= bbytes@ + bbits@ + rev_bytes(varint7(bbits@.len()))) by {
            let e = varint7(bits_size as nat);
            assert(rw.take(t + 1) == e);
            assert(forall|i: int|
                0 <= i < t + 1 ==> #[trigger] raw@[raw@.len() - 1 - i] == rw[i]);
            assert(forall|i: int|
                0 <= i < t + 1 ==> #[trigger] rev_bytes(e)[i] == e[t - i] && e[t - i] == rw[t
                    - i] && rw[t - i] == raw@[raw@.len() - 1 - (t - i)]);
        }
    }
    Ok((bbits, bbytes))
}

/// Builds the composite reader for a flat buffer: parses the trailer,
/// splits the two regions. The counterpart of `finish_deserialize`, which
/// must run after the caller has decoded its values.
pub fn begin_deserialize<'b>(input: &'b [u8]) -> (r: Result<Reader<'b>, Error>)
    requires
        input@.len() <= usize::MAX / 8,
    ensures
        r is Ok <==> unframe(input@) is Some,
        r is Err ==> r == Err::<Reader<'b>, Error>(Error::MalformedEncoding),
        r matches Ok(rd) ==> {
            &&& rd.wf()
            &&& unframe(input@) == Some((rd.bits_r.spec_bytes(), rd.bytes_r.buf@))
            &&& input@ == rd.bytes_r.buf@ + rd.bits_r.spec_bytes() + rev_bytes(
                varint7(rd.bits_r.spec_bytes().len()),
            )
            &&& rd.bits_r.cursor() == 0
            &&& rd.bytes_r.spec_position() == 0
        },
{
    let (bbits, bbytes) = match binary_to_cser(input) {
        Ok(p) => p,
        Err(_) => {
            return Err(Error::MalformedEncoding);
        },
    };
    proof {
        assert(bbits@.len() * 8 <= input@.len() * 8 <= usize::MAX) by (nonlinear_arith)
            requires
                bbits@.len() <= input@.len(),
                input@.len() <= usize::MAX / 8,
        ;
    }
    Ok(Reader { bits_r: bits::Reader::new(bbits), bytes_r: fast::Reader::new(bbytes) })
}

/// The post-decode canonical-exhaustion check, run once after every
/// deserialize: at most one unread bit-stream byte may remain, every
/// remaining bit must be zero padding, and the byte stream must be fully
/// consumed; anything else is a non-canonical encoding.
pub fn finish_deserialize(r: &mut Reader) -> (res: Result<(), Error>)
    requires
        old(r).wf(),
    ensures
        final(r).wf(),
        res is Err ==> res == Err::<(), Error>(Error::NonCanonicalEncoding),
        res is Ok <==> ({
            &&& old(r).bits_r.spec_bytes().len() - old(r).bits_r.byte_offset <= 1
            &&& (forall|j: int|
                old(r).bits_r.cursor() <= j < 8 * old(r).bits_r.spec_bytes().len() ==> !(
                #[trigger] old(r).bits_r.all_bits()[j]))
            &&& old(r).bytes_r.remaining().len() == 0
        }),
{
    // check that everything is read
    if r.bits_r.non_read_bytes() > 1 {
        proof {
            assert(!(old(r).bits_r.spec_bytes().len() - old(r).bits_r.byte_offset <= 1));
        }
        return Err(Error::NonCanonicalEncoding);
    }
    let tail_bits = r.bits_r.non_read_bits();
    proof {
        assert(tail_bits <= 8) by {
            assert(old(r).bits_r.cursor() >= 8 * old(r).bits_r.byte_offset);
        }
    }
    let tail = r.bits_r.read(tail_bits);
    let ghost seg = old(r).bits_r.all_bits().subrange(
        old(r).bits_r.cursor(),
        8 * old(r).bits_r.spec_bytes().len() as int,
    );
    proof {
        bits::lemma_zero_bits(tail_bits as nat);
        if tail == 0 {
            assert(forall|j: int| 0 <= j < seg.len() ==> !(#[trigger] seg[j])) by {
                assert(forall|j: int|
                    0 <= j < seg.len() ==> #[trigger] seg[j] == bits::val_bits(
                        tail,
                        tail_bits as nat,
                    )[j] && bits::val_bits(0, tail_bits as nat)[j] == false);
            }
        } else {
            if forall|j: int| 0 <= j < seg.len() ==> !(#[trigger] seg[j]) {
                assert(bits::val_bits(tail, tail_bits as nat) =~= bits::val_bits(
                    0,
                    tail_bits as nat,
                ));
                assert(bits::fits(0, tail_bits as nat)) by (bit_vector);
                bits::lemma_bits_pin_value(tail, 0, tail_bits as nat);
            }
        }
    }
    if tail != 0 {
        return Err(Error::NonCanonicalEncoding);
    }
    if !r.bytes_r.empty() {
        return Err(Error::NonCanonicalEncoding);
    }
    proof {
        assert(forall|j: int|
            old(r).bits_r.cursor() <= j < 8 * old(r).bits_r.spec_bytes().len() ==> !(
            #[trigger] old(r).bits_r.all_bits()[j])) by {
            assert(forall|j: int|
                old(r).bits_r.cursor() <= j < 8 * old(r).bits_r.spec_bytes().len()
                    ==> #[trigger] old(r).bits_r.all_bits()[j] == seg[j - old(r).bits_r.cursor()]);
        }
    }
    Ok(())
}

} // verus!
