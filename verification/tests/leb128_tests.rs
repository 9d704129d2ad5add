use glz::bits::BitBuf;
use glz::leb128::LEB128;

fn bits(s: &str) -> Vec<bool> {
    s.chars().filter(|c| *c == '0' || *c == '1').map(|c| c == '1').collect()
}

#[test]
fn leb128_encode_test() {
    assert_eq!(LEB128.encode_u8(0b1001000u8).unwrap().to_bools(), bits("01001000"));
    assert_eq!(
        LEB128.encode_u16(0b1100111001000u16).unwrap().to_bools(),
        bits("1100100000110011")
    );
}

#[test]
fn leb128_decode_test() {
    let b = BitBuf::from_bools(bits("01001000"));
    assert_eq!(LEB128.decode_u8(&b).unwrap(), (0b1001000u8, 8));
    let b = BitBuf::from_bools(bits("1100100000110011"));
    assert_eq!(LEB128.decode_u16(&b).unwrap(), (0b1100111001000u16, 16));
}

#[test]
fn leb128_errors_test() {
    let b = BitBuf::from_bools(bits("1100100000110011"));
    assert!(LEB128.decode_u8(&b).is_err());
}

#[test]
fn leb_roundtrip_test() {
    for n in [0u32, 1, 127, 128, 300, 16384, 0xFFFF_FFFF] {
        let code = LEB128.encode_u32(n).unwrap();
        let (back, consumed) = LEB128.decode_u32(&code).unwrap();
        assert_eq!(back, n);
        assert_eq!(consumed, code.len());
    }
}
