use cser::bits::Reader;
use cser::bits::Writer;
use rand::thread_rng;
use rand::Rng;

#[derive(Clone, Copy)]
struct TestWord {
    bits: usize,
    v: u64,
}

fn bytes_to_fit(bits: usize) -> usize {
    if bits % 8 == 0 {
        bits / 8
    } else {
        bits / 8 + 1
    }
}

fn gen_test_words(max_count: usize, max_bits: usize) -> Vec<TestWord> {
    (0..thread_rng().gen_range(0..max_count))
        .map(|_| {
            let bits = if max_bits == 1 {
                1
            } else {
                1 + thread_rng().gen_range(0..(max_bits - 1))
            };
            let v = thread_rng().gen_range(0..(1u64 << bits));
            TestWord { bits, v }
        })
        .collect()
}

fn test_bit_array(words: &[TestWord], name: String) {
    let mut writer = Writer::new(Vec::with_capacity(100));

    let mut total_bits_written = 0;
    for w in words {
        writer.write(w.bits, w.v);
        total_bits_written += w.bits
    }
    assert_eq!(
        bytes_to_fit(total_bits_written),
        writer.view_bytes().len(),
        "{name}"
    );

    let mut reader = Reader::new(writer.view_bytes());
    let mut total_bits_read = 0;
    for w in words {
        assert_eq!(
            bytes_to_fit(total_bits_written) * 8 - total_bits_read,
            reader.non_read_bits(),
            "{name}"
        );
        assert_eq!(
            bytes_to_fit(reader.non_read_bits()),
            reader.non_read_bytes(),
            "{name}"
        );

        let v = reader.read(w.bits);
        assert_eq!(w.v, v, "{name}");
        total_bits_read += w.bits;

        assert_eq!(
            bytes_to_fit(total_bits_written) * 8 - total_bits_read,
            reader.non_read_bits(),
            "{name}"
        );
        assert_eq!(
            bytes_to_fit(reader.non_read_bits()),
            reader.non_read_bytes(),
            "{name}"
        );
    }

    // read the tail
    let zero = reader.read(reader.non_read_bits());
    assert_eq!(0, zero, "{name}");
    assert_eq!(0, reader.non_read_bits(), "{name}");
    assert_eq!(0, reader.non_read_bytes(), "{name}");
}

#[test]
fn bit_array_empty() {
    test_bit_array(&[], "empty".to_string())
}

#[test]
fn bit_array_b0() {
    test_bit_array(&[TestWord { bits: 1, v: 0b0 }], "b0".to_string())
}

#[test]
fn bit_array_b1() {
    test_bit_array(&[TestWord { bits: 1, v: 0b1 }], "b1".to_string())
}

#[test]
fn bit_array_b010101010() {
    test_bit_array(
        &[TestWord {
            bits: 9,
            v: 0b010101010,
        }],
        "b010101010".to_string(),
    )
}

#[test]
fn bit_array_b01010101010101010() {
    test_bit_array(
        &[TestWord {
            bits: 17,
            v: 0b01010101010101010,
        }],
        "b01010101010101010".to_string(),
    )
}

#[test]
fn bit_array_rand1() {
    for i in 0..50 {
        test_bit_array(&gen_test_words(24, 1), format!("1 bit, case#{i}"))
    }
}

#[test]
fn bit_array_rand8() {
    for i in 0..50 {
        test_bit_array(&gen_test_words(100, 8), format!("8 bits, case#{i}"))
    }
}

#[test]
fn bit_array_rand17() {
    for i in 0..50 {
        test_bit_array(&gen_test_words(50, 17), format!("17 bits, case#{i}"))
    }
}

#[test]
fn bit_array_full_width() {
    // widths up to 64 bits, values at the width's edge
    let words = [
        TestWord { bits: 64, v: u64::MAX },
        TestWord { bits: 1, v: 1 },
        TestWord {
            bits: 63,
            v: (1u64 << 63) - 1,
        },
        TestWord { bits: 64, v: 0 },
    ];
    test_bit_array(&words, "full width".to_string())
}
