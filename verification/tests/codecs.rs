use cser::bits;
use cser::error::Error;
use cser::fast;
use cser::read_writer::read_uint64_bit_compact;
use cser::read_writer::read_uint64_compact;
use cser::read_writer::Reader;
use cser::read_writer::Writer;

#[test]
fn test_uint64_compact() {
    for (fixture, expected) in [
        (&[0b01111111_u8, 0b11111111_u8] as &[u8], Ok(0x3fff_u64)),
        (
            &[0b01111111_u8, 0b01111111_u8, 0b10000000_u8] as &[u8],
            Err(Error::NonCanonicalEncoding),
        ),
    ] {
        let mut r = fast::Reader::new(fixture);
        assert_eq!(expected, read_uint64_compact(&mut r));
    }
}

#[test]
fn test_uint64_bit_compact() {
    for (fixture, expected) in [
        (&[0b11111111_u8, 0b00111111_u8] as &[u8], Ok(0x3fff_u64)),
        (
            &[0b01111111_u8, 0b01111111_u8, 0b00000000_u8] as &[u8],
            Err(Error::NonCanonicalEncoding),
        ),
    ] {
        let mut r = fast::Reader::new(fixture);
        assert_eq!(expected, read_uint64_bit_compact(&mut r, fixture.len()));
    }
}

#[test]
fn i64() {
    let mut w = Writer::new();

    // canonical
    w.write_i64(0);

    // non-canonical
    w.write_bool(true);
    w.write_u64(0);

    let mut r = Reader {
        bits_r: bits::Reader::new(w.bits_w.view_bytes()),
        bytes_r: fast::Reader::new(&w.bytes_w.buf),
    };

    assert_eq!(r.read_i64(), Ok(0));
    assert_eq!(r.read_i64(), Err(Error::NonCanonicalEncoding));
}

#[test]
fn size_class_minimal() {
    // the codec emits the minimal little-endian representation: one byte
    // for values below 256 with floor one, two bytes for 0x3fff, never a
    // superfluous leading zero
    let mut w = Writer::new();
    w.write_u64(0);
    assert_eq!(w.bytes_w.buf, vec![0x00]);
    let mut w = Writer::new();
    w.write_u64(0x3fff);
    assert_eq!(w.bytes_w.buf, vec![0xff, 0x3f]);
    let mut w = Writer::new();
    w.write_u64(u64::MAX);
    assert_eq!(w.bytes_w.buf, vec![0xff; 8]);
    // floor zero: the value zero takes zero payload bytes
    let mut w = Writer::new();
    w.write_u56(cser::U56::try_from(0u64).unwrap());
    assert_eq!(w.bytes_w.buf, Vec::<u8>::new());
}

#[test]
fn error_messages() {
    assert_eq!(Error::NonCanonicalEncoding.message(), "non canonical encoding");
    assert_eq!(Error::MalformedEncoding.message(), "malformed encoding");
    assert_eq!(Error::TooLargeAlloc.message(), "too large allocation");
    // a value over 56 bits is rejected at construction, so decoding never
    // meets an out-of-range magnitude on this platform
    assert_eq!(Error::OverFlowError.message(), "value overflow");
    assert_eq!(Error::Custom("boom").message(), "boom");
    assert!(cser::U56::try_from(1u64 << 56).is_err());
    assert_eq!(cser::U56::try_from(5u64).unwrap().value(), 5);
}
