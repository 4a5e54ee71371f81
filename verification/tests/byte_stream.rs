use cser::fast::Reader;
use cser::fast::Writer;

const N: usize = 100;
const BB: &[u8] = &[0x00, 0x00, 0xFF, 0x09, 0x00];

#[test]
fn writer_reader() {
    let mut w = Writer::new(Vec::with_capacity(N / 2));
    for i in 0..N {
        w.write(&[i as u8]);
    }
    assert_eq!(N, w.buf.len());
    w.write(BB);
    assert_eq!(N + BB.len(), w.buf.len());

    let mut r = Reader::new(&w.buf);
    assert_eq!(N + BB.len(), r.buf.len());
    assert!(!r.empty());
    for exp in 0..N {
        let got = r.read_byte().unwrap();
        assert_eq!(exp as u8, got);
    }
    assert_eq!(N, r.position());
    let got = r.read(BB.len()).unwrap();
    assert_eq!(BB, got);
    assert!(r.empty());
}
