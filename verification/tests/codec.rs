use transaction_decoder::{Decodable, Encodable, Error};

#[test]
fn integers_are_little_endian() {
    let data = [1_u8, 2, 3, 4, 5, 6, 7, 8, 9];
    let mut r = data.as_slice();
    assert_eq!(u8::consensus_decode(&mut r).unwrap(), 1);
    assert_eq!(u16::consensus_decode(&mut r).unwrap(), 0x0302);
    assert_eq!(u32::consensus_decode(&mut r).unwrap(), 0x0706_0504);
    assert_eq!(r, &[8, 9]);

    let mut r = [0xEF_u8, 0xCD, 0xAB, 0x89, 0x67, 0x45, 0x23, 0x01].as_slice();
    assert_eq!(u64::consensus_decode(&mut r).unwrap(), 0x0123_4567_89AB_CDEF);
    assert!(r.is_empty());
}

#[test]
fn integers_write_back() {
    let mut w = Vec::new();
    assert_eq!(0xAB_u8.consensus_encode(&mut w).unwrap(), 1);
    assert_eq!(0x0302_u16.consensus_encode(&mut w).unwrap(), 2);
    assert_eq!(0x0706_0504_u32.consensus_encode(&mut w).unwrap(), 4);
    assert_eq!(0x0123_4567_89AB_CDEF_u64.consensus_encode(&mut w).unwrap(), 8);
    assert_eq!(
        w,
        vec![0xAB, 2, 3, 4, 5, 6, 7, 0xEF, 0xCD, 0xAB, 0x89, 0x67, 0x45, 0x23, 0x01]
    );
}

#[test]
fn short_integer_fails() {
    let mut r = [1_u8, 2, 3].as_slice();
    let err = u32::consensus_decode(&mut r).unwrap_err();
    let Error::Io(e) = err;
    assert_eq!(e.kind(), std::io::ErrorKind::UnexpectedEof);
    assert!(r.is_empty());
}

#[test]
fn text_is_read_as_hex_of_length_prefixed_bytes() {
    let mut r = [3_u8, 0xDE, 0xAD, 0x0F, 0x55].as_slice();
    let text = String::consensus_decode(&mut r).unwrap();
    assert_eq!(text, "dead0f");
    assert_eq!(r, &[0x55]);

    let mut w = Vec::new();
    assert_eq!(text.consensus_encode(&mut w).unwrap(), 4);
    assert_eq!(w, vec![3, 0xDE, 0xAD, 0x0F]);

    let mut w = Vec::new();
    assert_eq!(String::from("ABcd").consensus_encode(&mut w).unwrap(), 3);
    assert_eq!(w, vec![2, 0xAB, 0xCD]);
}

#[test]
fn text_longer_than_input_fails() {
    let mut r = [5_u8, 1, 2].as_slice();
    assert!(String::consensus_decode(&mut r).is_err());
    assert!(r.is_empty());
}

#[test]
fn hash_bytes_are_written_as_they_are() {
    let mut bytes = [0_u8; 32];
    for (i, b) in bytes.iter_mut().enumerate() {
        *b = i as u8;
    }
    let mut w = vec![0xFF];
    assert_eq!(bytes.consensus_encode(&mut w).unwrap(), 32);
    assert_eq!(w[0], 0xFF);
    assert_eq!(&w[1..], &bytes[..]);
}

#[test]
fn text_written_and_read_back_is_lowercase() {
    let mut w = Vec::new();
    String::from("DEadBEef").consensus_encode(&mut w).unwrap();
    w.push(0x42);
    let mut r = w.as_slice();
    assert_eq!(String::consensus_decode(&mut r).unwrap(), "deadbeef");
    assert_eq!(r, &[0x42]);
}
