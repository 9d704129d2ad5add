use glz::bits::BitBuf;
use glz::errors::CodecError;
use glz::glz::{GLZSym, GLZ};

fn bits(s: &str) -> Vec<bool> {
    s.chars().filter(|c| *c == '0' || *c == '1').map(|c| c == '1').collect()
}

#[test]
fn glz_encode_imm_test() {
    let glz = GLZ::with_config(9, 5, 3);
    assert_eq!(
        glz.encode_sym(GLZSym::Imm { count: 1, imm: b'a' }).unwrap().to_bools(),
        bits("0 001100001")
    );
    let glz = GLZ::with_config(9, 5, 3);
    assert_eq!(
        glz.encode_sym(GLZSym::Imm { count: 2, imm: b'a' }).unwrap().to_bools(),
        bits("0 100100000 0 001100001")
    );
    let glz = GLZ::with_config(9, 5, 3);
    assert_eq!(
        glz.encode_sym(GLZSym::Imm { count: 11, imm: b'a' }).unwrap().to_bools(),
        bits("0 100100000 0 100100001 0 001100001")
    );
}

#[test]
fn glz_encode_ref_test() {
    let glz = GLZ::with_config(9, 5, 3);
    assert_eq!(
        glz.encode_sym(GLZSym::Ref { off: 21, size: 12 }).unwrap().to_bools(),
        bits("0 100100001 0 100100100 0 100001010")
    );
    let glz = GLZ::with_config(9, 7, 7);
    assert_eq!(
        glz.encode_sym(GLZSym::Ref { off: 21, size: 12 }).unwrap().to_bools(),
        bits("0 110010100 0 100001010")
    );
    let glz = GLZ::with_config(9, 8, 8);
    assert_eq!(
        glz.encode_sym(GLZSym::Ref { off: 21, size: 12 }).unwrap().to_bools(),
        bits("10 00001010 0 0 100001010")
    );
    let glz = GLZ::with_config(9, 4, 1);
    assert_eq!(
        glz.encode_sym(GLZSym::Ref { off: 21, size: 12 }).unwrap().to_bools(),
        bits("0 100010000 0 100010001 0 100010001 0 100010000 0 100001010")
    );
}

#[test]
fn glz_sym_symmetry_test() {
    let glz = GLZ::with_config(8, 5, 3);
    let sym = GLZSym::Imm { count: 1, imm: b'a' };
    let code = glz.encode_sym(sym).unwrap();
    assert_eq!(glz.decode_sym(&code).unwrap(), (sym, 9));
    let sym = GLZSym::Imm { count: 2, imm: b'a' };
    let code = glz.encode_sym(sym).unwrap();
    assert_eq!(glz.decode_sym(&code).unwrap(), (sym, 19));
    let sym = GLZSym::Imm { count: 11, imm: b'a' };
    let code = glz.encode_sym(sym).unwrap();
    assert_eq!(glz.decode_sym(&code).unwrap(), (sym, 29));
    let sym = GLZSym::Ref { off: 21, size: 12 };
    let code = glz.encode_sym(sym).unwrap();
    assert_eq!(glz.decode_sym(&code).unwrap(), (sym, 30));
    let sym = GLZSym::Ref { off: 0, size: 2 };
    let code = glz.encode_sym(sym).unwrap();
    assert_eq!(glz.decode_sym(&code).unwrap(), (sym, 10));
    let sym = GLZSym::Ref { off: 123456, size: 31 };
    let code = glz.encode_sym(sym).unwrap();
    assert_eq!(glz.decode_sym(&code).unwrap(), (sym, 70));
}

#[test]
fn glz_symmetry_test() {
    let glz = GLZ::with_config(8, 5, 3);
    let phrase = b"hello world!".to_vec();
    assert_eq!(glz.encode(&phrase).unwrap().len(), 109);
    assert_eq!(glz.decode(&glz.encode(&phrase).unwrap()).unwrap(), phrase);

    let phrase = b"hello world hello hello world!".to_vec();
    assert_eq!(glz.encode(&phrase).unwrap().len(), 158);
    assert_eq!(glz.decode(&glz.encode(&phrase).unwrap()).unwrap(), phrase);

    let phrase = b"hhhhh wwwww hhhhh hhhhh wwwww!".to_vec();
    assert_eq!(glz.encode(&phrase).unwrap().len(), 105);
    assert_eq!(glz.decode(&glz.encode(&phrase).unwrap()).unwrap(), phrase);

    let phrase = b"hhhhh hhhhh hhhhh hhhhh hhhhh!".to_vec();
    assert_eq!(glz.encode(&phrase).unwrap().len(), 104);
    assert_eq!(glz.decode(&glz.encode(&phrase).unwrap()).unwrap(), phrase);

    let phrase = b"hhhhhhhhhhhhhhhhhhhhhhhhhhhhh!".to_vec();
    assert_eq!(glz.encode(&phrase).unwrap().len(), 38);
    assert_eq!(glz.decode(&glz.encode(&phrase).unwrap()).unwrap(), phrase);

    let phrase = b"hhhhhhhhhhhhhhhhhhhhhhhhhhhhhh".to_vec();
    assert_eq!(glz.encode(&phrase).unwrap().len(), 29);
    assert_eq!(glz.decode(&glz.encode(&phrase).unwrap()).unwrap(), phrase);
}

#[test]
fn glz_seeded_symmetry_test() {
    let phrase = b"hello world!".to_vec();
    let glz = GLZ::from_seed(None, 5, 3, &phrase).unwrap();
    assert_eq!(glz.k(), 1);
    assert_eq!(glz.encode(&phrase).unwrap().len(), 44);
    assert_eq!(glz.decode(&glz.encode(&phrase).unwrap()).unwrap(), phrase);

    let phrase = b"hello world hello hello world!".to_vec();
    let glz = GLZ::from_seed(None, 5, 3, &phrase).unwrap();
    assert_eq!(glz.k(), 2);
    assert_eq!(glz.encode(&phrase).unwrap().len(), 93);
    assert_eq!(glz.decode(&glz.encode(&phrase).unwrap()).unwrap(), phrase);

    let phrase = b"hhhhh wwwww hhhhh hhhhh wwwww!".to_vec();
    let glz = GLZ::from_seed(None, 5, 3, &phrase).unwrap();
    assert_eq!(glz.k(), 1);
    assert_eq!(glz.encode(&phrase).unwrap().len(), 35);
    assert_eq!(glz.decode(&glz.encode(&phrase).unwrap()).unwrap(), phrase);

    let phrase = b"hhhhh hhhhh hhhhh hhhhh hhhhh!".to_vec();
    let glz = GLZ::from_seed(None, 5, 3, &phrase).unwrap();
    assert_eq!(glz.k(), 0);
    assert_eq!(glz.encode(&phrase).unwrap().len(), 28);
    assert_eq!(glz.decode(&glz.encode(&phrase).unwrap()).unwrap(), phrase);

    let phrase = b"hhhhhhhhhhhhhhhhhhhhhhhhhhhhh!".to_vec();
    let glz = GLZ::from_seed(None, 5, 3, &phrase).unwrap();
    assert_eq!(glz.k(), 0);
    assert_eq!(glz.encode(&phrase).unwrap().len(), 10);
    assert_eq!(glz.decode(&glz.encode(&phrase).unwrap()).unwrap(), phrase);

    let phrase = b"hhhhhhhhhhhhhhhhhhhhhhhhhhhhhh".to_vec();
    let glz = GLZ::from_seed(None, 5, 3, &phrase).unwrap();
    assert_eq!(glz.k(), 0);
    assert_eq!(glz.encode(&phrase).unwrap().len(), 6);
    assert_eq!(glz.decode(&glz.encode(&phrase).unwrap()).unwrap(), phrase);
}

#[test]
fn glz_granular_test() {
    // every returned (offset, length) pair recovers exactly its slice,
    // independently of the others
    let glz = GLZ::with_config(8, 5, 3);
    let slices: Vec<Vec<u8>> = vec![
        b"hello world!".to_vec(),
        b"hello there".to_vec(),
        b"abc".to_vec(),
        b"".to_vec(),
        b"hello world!".to_vec(),
    ];
    let (blob, offs) = glz.encode_all(&slices).unwrap();
    assert_eq!(offs.len(), 5);
    for (i, slice) in slices.iter().enumerate() {
        let (o, l) = offs[i];
        assert_eq!(l, slice.len());
        assert_eq!(glz.decode_at(&blob, o, l).unwrap(), *slice);
    }
    // equal slices share one offset
    assert_eq!(offs[0], offs[4]);
    // the whole set decodes in one call too
    let all = glz.decode_all(&blob, &offs).unwrap();
    assert_eq!(all, slices);
}

#[test]
fn glz_truncated_unary_test() {
    // a unary run cut off before its terminating zero is a format
    // error, never a panic and never partial output
    let glz = GLZ::with_config(8, 5, 3);
    let cut = BitBuf::from_bools(bits("111111"));
    assert_eq!(glz.decode_at(&cut, 0, 4), Err(CodecError::Unterminated));
    assert_eq!(glz.decode(&cut), Err(CodecError::Unterminated));
    let short = BitBuf::from_bools(bits("10 0110"));
    assert_eq!(glz.decode_at(&short, 0, 4), Err(CodecError::Truncated));
}

#[test]
fn glz_tail_reference_skips_test() {
    // a reference whose size covers the rest of the request does not
    // recurse: it only moves the read position, so even a reference at
    // the very front of the stream decodes
    let glz = GLZ::with_config(8, 5, 3);
    // ref {off: 0, size: 2}, then imm {count: 2, imm: 'x'}
    let mut stream = glz.encode_sym(GLZSym::Ref { off: 0, size: 2 }).unwrap();
    stream.append(&glz.encode_sym(GLZSym::Imm { count: 2, imm: b'x' }).unwrap());
    assert_eq!(glz.decode_at(&stream, 0, 2).unwrap(), b"xx".to_vec());
}

#[test]
fn glz_runtime_cap_test() {
    // a crafted stream of references that only move the read position
    // must trip the cycle cap, within a number of steps linear in the
    // requested size
    let glz = GLZ::with_config(8, 5, 3);
    let mut stream = BitBuf::new();
    for _ in 0..4 {
        stream.append(&glz.encode_sym(GLZSym::Ref { off: 0, size: 2 }).unwrap());
    }
    assert_eq!(glz.decode_at(&stream, 0, 1), Err(CodecError::RuntimeExceeded));
}

#[test]
fn glz_depth_cap_test() {
    // a reference that resolves through another unresolved reference
    // exceeds the recursion depth cap
    let glz = GLZ::with_config(8, 5, 3);
    let mut stream = BitBuf::new();
    // the first reference leaves bytes over, so it recurses; its target
    // is another reference that leaves bytes over, which would need a
    // second level
    stream.append(&glz.encode_sym(GLZSym::Ref { off: 0, size: 3 }).unwrap());
    stream.append(&glz.encode_sym(GLZSym::Ref { off: 0, size: 2 }).unwrap());
    stream.append(&glz.encode_sym(GLZSym::Imm { count: 5, imm: b'y' }).unwrap());
    assert_eq!(glz.decode_at(&stream, 0, 4), Err(CodecError::DepthExceeded));
}

#[test]
fn glz_single_imm_pattern_test() {
    // under (k=8, l=5, m=3) a lone 'a' is the nine-bit pattern
    // `0 01100001`: zero quotient terminator, then the byte
    let glz = GLZ::with_config(8, 5, 3);
    assert_eq!(
        glz.encode_sym(GLZSym::Imm { count: 1, imm: b'a' }).unwrap().to_bools(),
        bits("0 01100001")
    );
}

#[test]
fn glz_encode_errors_test() {
    let glz = GLZ::with_config(8, 5, 3);
    assert_eq!(
        glz.encode_sym(GLZSym::Imm { count: 0, imm: b'a' }).err(),
        Some(CodecError::BadCount)
    );
    assert_eq!(
        glz.encode_sym(GLZSym::Ref { off: 0, size: 1 }).err(),
        Some(CodecError::BadSize)
    );
    assert_eq!(
        glz.encode_sym(GLZSym::Ref { off: 0, size: 100 }).err(),
        Some(CodecError::BadSize)
    );
}

#[test]
fn glz_table_roundtrip_test() {
    // an explicit decode table drives the coder the same way on both
    // sides
    let table: Vec<u32> = (0..300u32).rev().collect();
    let glz = GLZ::with_table(4, 5, 3, &table);
    let phrase = b"granular enough".to_vec();
    let code = glz.encode(&phrase).unwrap();
    assert_eq!(glz.decode(&code).unwrap(), phrase);
}
