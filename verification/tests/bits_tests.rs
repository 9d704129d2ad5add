use glz::bits::{decode_u16, decode_u32, decode_u8, encode_u16, encode_u32, encode_u8, BitBuf};
use glz::errors::CodecError;

fn bits(s: &str) -> Vec<bool> {
    s.chars().filter(|c| *c == '0' || *c == '1').map(|c| c == '1').collect()
}

#[test]
fn bits_encode_test() {
    assert_eq!(encode_u8(8, 0b11001001u8).unwrap().to_bools(), bits("11001001"));
}

#[test]
fn bits_decode_test() {
    let b = BitBuf::from_bools(bits("11001001"));
    assert_eq!(decode_u8(8, &b, 0).unwrap(), (0b11001001u8, 8));
}

#[test]
fn bits_errors_test() {
    assert!(encode_u8(16, 0b11001001u8).is_err());
    assert!(encode_u16(8, 0b1100100100000000u16).is_err());
    let b16 = BitBuf::from_bools(bits("1100100100000000"));
    assert!(decode_u8(16, &b16, 0).is_err());
    let b8 = BitBuf::from_bools(bits("11001001"));
    assert!(decode_u16(16, &b8, 0).is_err());
}

fn mask(n: u32, m: usize) -> u32 {
    n & 1u32.checked_shl(m as u32).unwrap_or(0).wrapping_sub(1)
}

#[test]
fn bits_symmetry_test() {
    for i in 1..=8usize {
        let pattern = mask(0xc5c5c5c5, i) as u8;
        let code = encode_u8(i, pattern).unwrap();
        assert_eq!(code.len(), i);
        assert_eq!(decode_u8(i, &code, 0).unwrap(), (pattern, i));
    }

    for i in 1..=16usize {
        let pattern = mask(0xc5c5c5c5, i) as u16;
        let code = encode_u16(i, pattern).unwrap();
        assert_eq!(code.len(), i);
        assert_eq!(decode_u16(i, &code, 0).unwrap(), (pattern, i));
    }

    for i in 1..=32usize {
        let pattern = mask(0xc5c5c5c5, i);
        let code = encode_u32(i, pattern).unwrap();
        assert_eq!(code.len(), i);
        assert_eq!(decode_u32(i, &code, 0).unwrap(), (pattern, i));
    }

    // the stream form: fixed-width codes, one after the other
    let stream = glz::bits::encode_stream(8, &b"hello world!".to_vec()).unwrap();
    assert_eq!(stream.len(), 96);
    assert_eq!(
        glz::bits::decode_stream(8, &stream).unwrap(),
        b"hello world!".to_vec()
    );
}

#[test]
fn bits_error_kind_test() {
    let b = BitBuf::from_bools(bits("1010"));
    assert_eq!(decode_u8(8, &b, 0), Err(CodecError::Truncated));
    assert_eq!(decode_u8(8, &b, 2), Err(CodecError::Truncated));
    assert_eq!(encode_u8(4, 0b10000u8).err(), Some(CodecError::Overflow));
    assert_eq!(encode_u32(33, 0).err(), Some(CodecError::WidthExceeded));
}
