use std::error::Error;
use transaction_decoder::{read_compact_size, CompactSize, Decodable, Encodable};

#[test]
fn transaction_read_compact_size_test() -> Result<(), Box<dyn Error>> {
    let mut bytes = [1_u8].as_slice();
    let count = CompactSize::consensus_decode(&mut bytes).unwrap().0;
    assert_eq!(count, 1);

    let mut bytes = [253_u8, 0, 1].as_slice();
    let count = CompactSize::consensus_decode(&mut bytes).unwrap().0;
    assert_eq!(count, 256);

    let mut bytes = [254_u8, 0, 0, 0, 1].as_slice();
    let count = CompactSize::consensus_decode(&mut bytes).unwrap().0;
    assert_eq!(count, 256_u64.pow(3));

    let mut bytes = [255_u8, 0, 0, 0, 0, 0, 0, 0, 1].as_slice();
    let count = CompactSize::consensus_decode(&mut bytes).unwrap().0;
    assert_eq!(count, 256_u64.pow(7));

    let hex = "fd204e";
    let decoded = hex::decode(hex)?;
    let mut bytes = decoded.as_slice();
    let count = CompactSize::consensus_decode(&mut bytes).unwrap().0;
    assert_eq!(count, 20_000);

    Ok(())
}

#[test]
fn unit_tests_read_compact_size_test() -> Result<(), Box<dyn Error>> {
    let mut bytes = [1_u8].as_slice();
    let count = read_compact_size(&mut bytes).unwrap();
    assert_eq!(count, 1);

    let mut bytes = [253_u8, 0, 1].as_slice();
    let count = read_compact_size(&mut bytes).unwrap();
    assert_eq!(count, 256);

    let mut bytes = [254_u8, 0, 0, 0, 1].as_slice();
    let count = read_compact_size(&mut bytes).unwrap();
    assert_eq!(count, 256_u64.pow(3));

    let mut bytes = [255_u8, 0, 0, 0, 0, 0, 0, 0, 1].as_slice();
    let count = read_compact_size(&mut bytes).unwrap();
    assert_eq!(count, 256_u64.pow(7));

    let hex = "fd204e";
    let decoded = hex::decode(hex)?;
    let mut bytes = decoded.as_slice();
    let count = read_compact_size(&mut bytes).unwrap();
    assert_eq!(count, 20_000);

    Ok(())
}

fn encoded(n: u64) -> (Vec<u8>, usize) {
    let mut w = Vec::new();
    let len = CompactSize(n).consensus_encode(&mut w).unwrap();
    (w, len)
}

#[test]
fn compact_size_encoding_widths() {
    assert_eq!(encoded(0), (vec![0], 1));
    assert_eq!(encoded(252), (vec![252], 1));
    assert_eq!(encoded(253), (vec![253, 253, 0], 3));
    assert_eq!(encoded(0xFFFF), (vec![253, 0xFF, 0xFF], 3));
    assert_eq!(encoded(0x1_0000), (vec![254, 0, 0, 1, 0], 5));
    assert_eq!(encoded(0xFFFF_FFFF), (vec![254, 0xFF, 0xFF, 0xFF, 0xFF], 5));
    assert_eq!(encoded(0x1_0000_0000), (vec![255, 0, 0, 0, 0, 1, 0, 0, 0], 9));
    assert_eq!(encoded(u64::MAX), (vec![255; 9], 9));
}

#[test]
fn compact_size_roundtrip_keeps_following_bytes() {
    for n in [0u64, 1, 252, 253, 20_000, 0xFFFF, 0x1_0000, 0xFFFF_FFFF, 0x1_0000_0000, u64::MAX] {
        let (mut w, len) = encoded(n);
        w.extend_from_slice(&[7, 8]);
        let mut r = w.as_slice();
        assert_eq!(read_compact_size(&mut r).unwrap(), n);
        assert_eq!(r, &[7, 8]);
        assert_eq!(w.len(), len + 2);
    }
}

#[test]
fn compact_size_longer_form_is_accepted() {
    let mut r = [0xFD_u8, 1, 0, 9].as_slice();
    assert_eq!(read_compact_size(&mut r).unwrap(), 1);
    assert_eq!(r, &[9]);
    // Written back, the value takes its shortest form.
    assert_eq!(encoded(1), (vec![1], 1));
}

#[test]
fn compact_size_short_input_fails_and_empties_reader() {
    for input in [&[][..], &[0xFD, 1][..], &[0xFE, 1, 2, 3][..], &[0xFF, 1, 2, 3, 4, 5, 6, 7][..]] {
        let mut r = input;
        let err = read_compact_size(&mut r).unwrap_err();
        match err {
            transaction_decoder::Error::Io(e) => {
                assert_eq!(e.kind(), std::io::ErrorKind::UnexpectedEof)
            },
        }
        assert!(r.is_empty());
    }
}
