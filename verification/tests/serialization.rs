use cser::binary::begin_deserialize;
use cser::binary::binary_from_cser;
use cser::binary::binary_to_cser;
use cser::binary::finish_deserialize;
use cser::error::Error;
use cser::fast;
use cser::read_writer::write_uint64_compact;
use cser::read_writer::Reader;
use cser::read_writer::Writer;
use cser::U56;

fn marshal_binary_adapter(
    marshal_cser: impl FnOnce(&mut Writer) -> Result<(), Error>,
) -> Result<Vec<u8>, Error> {
    let mut w = Writer::new();
    (marshal_cser)(&mut w)?;

    Ok(w.output())
}

fn deserialize_cb<T>(
    input: &[u8],
    handler: impl FnOnce(&mut Reader) -> Result<T, Error>,
) -> Result<T, Error> {
    let mut body_reader = begin_deserialize(input)?;
    let out = (handler)(&mut body_reader)?;
    finish_deserialize(&mut body_reader)?;
    Ok(out)
}

#[test]
fn empty() {
    let buf = marshal_binary_adapter(|_| Ok(())).unwrap();

    deserialize_cb(&buf, |_| Ok::<_, Error>(())).unwrap();
}

#[test]
fn err() {
    let mut buf = vec![];

    // Write
    buf.append(
        &mut marshal_binary_adapter(|w| {
            w.write_u64(u64::MAX);
            Ok(())
        })
        .unwrap(),
    );

    // Read None
    // nothing unmarshal
    assert_eq!(
        deserialize_cb(&[], |_| Ok(())),
        Err(Error::MalformedEncoding)
    );

    // Read Err
    let e = Error::Custom("custom");
    // unmarshal
    assert_eq!(
        deserialize_cb(&buf, |r| {
            assert_eq!(r.read_u64().unwrap(), u64::MAX);
            Err::<(), _>(e)
        }),
        Err(e)
    );

    // "Read 0"

    // unpack
    let (_, bbytes) = binary_to_cser(&buf).unwrap();
    let l = bbytes.len();
    // pack with wrong bits size
    let mut corrupted = fast::Writer::new(bbytes.to_vec());
    let mut size_writer = fast::Writer::new(Vec::with_capacity(4));
    write_uint64_compact(&mut size_writer, u64::try_from(l).unwrap() + 1);
    let mut size_buf = size_writer.buf;
    size_buf.reverse();
    corrupted.write(&size_buf);
    // corrupted unpack
    assert_eq!(
        binary_to_cser(&corrupted.buf),
        Err(Error::MalformedEncoding)
    );
    // corrupted unmarshal
    assert_eq!(
        deserialize_cb(&corrupted.buf, |r| {
            assert_eq!(r.read_u64().unwrap(), u64::MAX);
            Ok(())
        }),
        Err(Error::MalformedEncoding)
    );

    #[allow(clippy::type_complexity)]
    let repack_with_defect =
        |defect: Box<dyn FnOnce(&mut Vec<u8>, &mut Vec<u8>) -> Result<(), Error>>| {
            // unpack
            let (bbits, bbytes) = binary_to_cser(&buf).unwrap();
            let mut bbits = bbits.to_vec();
            let mut bbytes = bbytes.to_vec();
            // pack with defect
            let err_exp = (defect)(&mut bbits, &mut bbytes);
            let corrupted = binary_from_cser(&bbits, bbytes);
            // corrupted unmarshal
            assert_eq!(
                deserialize_cb(&corrupted, |r| {
                    let _ = r.read_u64();
                    Ok(())
                }),
                err_exp
            );
        };

    (repack_with_defect)(Box::new(|_, _| {
        // no defect
        Ok(())
    }));

    (repack_with_defect)(Box::new(|_, bbytes| {
        bbytes.push(0xFF);
        Err(Error::NonCanonicalEncoding)
    }));

    (repack_with_defect)(Box::new(|bbits, _| {
        bbits.push(0x0F);
        Err(Error::NonCanonicalEncoding)
    }));

    (repack_with_defect)(Box::new(|_, bbytes| {
        bbytes.truncate(bbytes.len() - 1);
        Err(Error::NonCanonicalEncoding)
    }));
}

#[test]
fn vals() {
    let exp_bool = vec![true, false];
    let exp_fixed_bytes_empty: Vec<[u8; 0]> = vec![[]];
    let exp_fixed_bytes = vec![[rand::random::<u8>(); 0xFF]];
    let exp_slice_bytes = vec![vec![rand::random::<u8>(); 0xFF]];
    let exp_u8 = vec![0, 1, u8::MAX];
    let exp_u16 = vec![0, 1, u16::MAX];
    let exp_u32 = vec![0, 1, u32::MAX];
    let exp_u64 = vec![0, 1, u64::MAX];
    let exp_i64 = vec![0, 1, i64::MIN, i64::MAX];
    let exp_u56 = [0_u64, 1, 1 << ((8 * 7) - 1)]
        .into_iter()
        .map(|v| U56::try_from(v).unwrap())
        .collect::<Vec<_>>();

    let buf = marshal_binary_adapter(|w| {
        for v in &exp_bool {
            w.write_bool(*v);
        }
        for v in &exp_fixed_bytes_empty {
            w.bytes_w.write(v.as_slice());
        }
        for v in &exp_fixed_bytes {
            w.bytes_w.write(v.as_slice());
        }
        for v in &exp_slice_bytes {
            w.write_bytes(v.as_slice());
        }
        for v in &exp_u8 {
            w.write_u8(*v);
        }
        for v in &exp_u16 {
            w.write_u16(*v);
        }
        for v in &exp_u32 {
            w.write_u32(*v);
        }
        for v in &exp_u64 {
            w.write_u64(*v);
        }
        for v in &exp_i64 {
            w.write_i64(*v);
        }
        for v in &exp_u56 {
            w.write_u56(*v);
        }
        Ok(())
    })
    .unwrap();

    deserialize_cb(&buf, |r| {
        for v in &exp_bool {
            assert_eq!(r.read_bool().unwrap(), *v);
        }
        for &v in &exp_fixed_bytes_empty {
            let got = r.bytes_r.read(0).unwrap();
            assert_eq!(got, v);
        }
        for &v in &exp_fixed_bytes {
            let got = r.bytes_r.read(0xFF).unwrap();
            assert_eq!(got, v);
        }
        for v in &exp_slice_bytes {
            assert_eq!(r.slice_bytes(v.len()).unwrap(), *v);
        }
        for v in &exp_u8 {
            assert_eq!(r.read_u8().unwrap(), *v);
        }
        for v in &exp_u16 {
            assert_eq!(r.read_u16().unwrap(), *v);
        }
        for v in &exp_u32 {
            assert_eq!(r.read_u32().unwrap(), *v);
        }
        for v in &exp_u64 {
            assert_eq!(r.read_u64().unwrap(), *v);
        }
        for v in &exp_i64 {
            assert_eq!(r.read_i64().unwrap(), *v);
        }
        for v in &exp_u56 {
            assert_eq!(r.read_u56().unwrap(), *v);
        }
        Ok::<_, Error>(())
    })
    .unwrap();
}

#[derive(Clone, Debug, PartialEq)]
struct DeriveTest {
    field_a: u32,
    field_b: u64,
}

// the aggregate mapping: each field through the per-type contract, in
// declaration order
fn encode_derive_test(value: &DeriveTest, w: &mut Writer) {
    w.write_u32(value.field_a);
    w.write_u64(value.field_b);
}

#[test]
fn encodable_derive_equivalence() {
    let field_a = 0x1234_5678;
    let field_b = 0x1234_5678_9abc_def0;

    let mut writer_derive = Writer::new();
    let value = DeriveTest { field_a, field_b };
    encode_derive_test(&value, &mut writer_derive);

    let mut writer_manual = Writer::new();
    writer_manual.write_u32(field_a);
    writer_manual.write_u64(field_b);

    assert_eq!(writer_derive, writer_manual);
}

#[test]
fn vec_specialization() {
    {
        let bytestring = vec![0x42_u8, 0x43_u8];
        let mut writer1 = Writer::new();
        writer1.write_bytes(bytestring.as_slice());

        let mut writer2 = Writer::new();
        writer2.write_bytes(bytestring.as_slice());
        assert_eq!(writer1, writer2);
        let out = writer1.output();
        assert_eq!(out, vec![0x02, 0x42, 0x43, 0x01, 0x81]);
        let got: Vec<u8> = deserialize_cb(&out, |r| {
            let s = r.slice_bytes(usize::MAX)?;
            Ok(s.to_vec())
        })
        .unwrap();
        assert_eq!(got, bytestring);
    }

    {
        let numbers = vec![0xAABB_u64, 0xCCDD_u64];
        let mut writer3 = Writer::new();
        writer3.write_u64_seq(numbers.as_slice());
        let out = writer3.output();
        assert_eq!(out, vec![0x02, 0xBB, 0xAA, 0xDD, 0xCC, 0x24, 0x81]);
        let got: Vec<u64> = deserialize_cb(&out, |r| r.read_u64_seq()).unwrap();
        assert_eq!(got, numbers);
    }
}

#[test]
fn truncated_buffer_is_malformed() {
    let buf = marshal_binary_adapter(|w| {
        w.write_u64(u64::MAX);
        Ok(())
    })
    .unwrap();
    let mut cut = buf.clone();
    cut.truncate(cut.len() - 1);
    assert_eq!(
        deserialize_cb(&cut, |r| {
            let _ = r.read_u64();
            Ok(())
        }),
        Err(Error::MalformedEncoding)
    );
}

#[test]
fn bounded_slice_read_limits() {
    let payload = vec![7u8, 8, 9];
    let buf = marshal_binary_adapter(|w| {
        w.write_bytes(payload.as_slice());
        Ok(())
    })
    .unwrap();
    // a cap below the encoded length fails with TooLargeAlloc
    assert_eq!(
        deserialize_cb(&buf, |r| {
            r.slice_bytes(2).map(|s| s.to_vec())
        }),
        Err(Error::TooLargeAlloc)
    );
    // a cap at the encoded length succeeds
    assert_eq!(
        deserialize_cb(&buf, |r| { r.slice_bytes(3).map(|s| s.to_vec()) }).unwrap(),
        payload
    );
    // fewer bytes remaining than declared fails with MalformedEncoding
    let short = marshal_binary_adapter(|w| {
        w.write_u56(U56::try_from(5u64).unwrap());
        Ok(())
    })
    .unwrap();
    assert_eq!(
        deserialize_cb(&short, |r| { r.slice_bytes(10).map(|s| s.to_vec()) }),
        Err(Error::MalformedEncoding)
    );
}

#[test]
fn round_trip_all_scalars() {
    // round-trip: deserializing a serialized value yields the value
    for v in [0u64, 1, 127, 128, 0x3fff, 1 << 32, u64::MAX] {
        let buf = marshal_binary_adapter(|w| {
            w.write_u64(v);
            Ok(())
        })
        .unwrap();
        let got = deserialize_cb(&buf, |r| r.read_u64()).unwrap();
        assert_eq!(got, v);
    }
    for v in [i64::MIN, -1, 0, 1, i64::MAX] {
        let buf = marshal_binary_adapter(|w| {
            w.write_i64(v);
            Ok(())
        })
        .unwrap();
        let got = deserialize_cb(&buf, |r| r.read_i64()).unwrap();
        assert_eq!(got, v);
    }
}

#[test]
fn canonical_unique_bytes() {
    // exactly one byte sequence decodes to a value: flipping the zero
    // padding of the bit stream must fail, never silently succeed
    let buf = marshal_binary_adapter(|w| {
        w.write_bool(true);
        Ok(())
    })
    .unwrap();
    // bits region is one byte holding 0b0000_0001; set a padding bit
    let (bbits, bbytes) = binary_to_cser(&buf).unwrap();
    let mut bad_bits = bbits.to_vec();
    bad_bits[0] |= 0b0000_0010;
    let corrupted = binary_from_cser(&bad_bits, bbytes.to_vec());
    assert_eq!(
        deserialize_cb(&corrupted, |r| r.read_bool()),
        Err(Error::NonCanonicalEncoding)
    );
}
