use glz::bits::BitBuf;
use glz::hist::Hist;
use glz::rice::{BijectEncoder, GolombRice_};

fn bits(s: &str) -> Vec<bool> {
    s.chars().filter(|c| *c == '0' || *c == '1').map(|c| c == '1').collect()
}

fn seed_of(bytes: &[u8]) -> Vec<u32> {
    bytes.iter().map(|&b| b as u32).collect()
}

#[test]
fn rice_encode_test() {
    assert_eq!(
        GolombRice_::new(8).encode_u8(0b01011100u8).unwrap().to_bools(),
        bits("0 01011100")
    );
    assert_eq!(
        GolombRice_::new(7).encode_u8(0b01011100u8).unwrap().to_bools(),
        bits("0 1011100")
    );
    assert_eq!(
        GolombRice_::new(6).encode_u8(0b01011100u8).unwrap().to_bools(),
        bits("10 011100")
    );
    assert_eq!(
        GolombRice_::new(5).encode_u8(0b01011100u8).unwrap().to_bools(),
        bits("110 11100")
    );
    assert_eq!(
        GolombRice_::new(4).encode_u8(0b01011100u8).unwrap().to_bools(),
        bits("111110 1100")
    );
    assert_eq!(
        GolombRice_::new(3).encode_u8(0b01011100u8).unwrap().to_bools(),
        bits("11111111111 0 100")
    );
    assert_eq!(
        GolombRice_::new(2).encode_u8(0b01011100u8).unwrap().to_bools(),
        bits("11111111111111111111111 0 00")
    );
    assert_eq!(GolombRice_::new(1).encode_u8(0b01011100u8).unwrap().to_bools(), {
        let mut v = vec![true; 46];
        v.push(false);
        v.push(false);
        v
    });
    assert_eq!(GolombRice_::new(0).encode_u8(0b01011100u8).unwrap().to_bools(), {
        let mut v = vec![true; 92];
        v.push(false);
        v
    });
}

#[test]
fn rice_decode_test() {
    let gr8 = GolombRice_::new(8);
    assert_eq!(
        gr8.decode_u8(&BitBuf::from_bools(bits("0 01011100"))).unwrap(),
        (0b01011100u8, 9)
    );
    let gr7 = GolombRice_::new(7);
    assert_eq!(
        gr7.decode_u8(&BitBuf::from_bools(bits("0 1011100"))).unwrap(),
        (0b01011100u8, 8)
    );
    let gr6 = GolombRice_::new(6);
    assert_eq!(
        gr6.decode_u8(&BitBuf::from_bools(bits("10 011100"))).unwrap(),
        (0b01011100u8, 8)
    );
    let gr5 = GolombRice_::new(5);
    assert_eq!(
        gr5.decode_u8(&BitBuf::from_bools(bits("110 11100"))).unwrap(),
        (0b01011100u8, 8)
    );
    let gr4 = GolombRice_::new(4);
    assert_eq!(
        gr4.decode_u8(&BitBuf::from_bools(bits("111110 1100"))).unwrap(),
        (0b01011100u8, 10)
    );
    let gr3 = GolombRice_::new(3);
    assert_eq!(
        gr3.decode_u8(&BitBuf::from_bools(bits("11111111111 0 100"))).unwrap(),
        (0b01011100u8, 15)
    );
    let gr2 = GolombRice_::new(2);
    assert_eq!(
        gr2.decode_u8(&BitBuf::from_bools(bits("11111111111111111111111 0 00"))).unwrap(),
        (0b01011100u8, 23 + 3)
    );
    let gr1 = GolombRice_::new(1);
    let mut v1 = vec![true; 46];
    v1.push(false);
    v1.push(false);
    assert_eq!(
        gr1.decode_u8(&BitBuf::from_bools(v1)).unwrap(),
        (0b01011100u8, 2 * 23 + 2)
    );
    let gr0 = GolombRice_::new(0);
    let mut v0 = vec![true; 92];
    v0.push(false);
    assert_eq!(
        gr0.decode_u8(&BitBuf::from_bools(v0)).unwrap(),
        (0b01011100u8, 4 * 23 + 1)
    );
}

#[test]
fn rice_errors_test() {
    let gr = GolombRice_::new(4);
    assert!(gr.decode_u8(&BitBuf::from_bools(bits("11111111"))).is_err());
    assert!(gr.decode_u8(&BitBuf::from_bools(bits("1110"))).is_err());
    assert!(gr.decode_u8(&BitBuf::from_bools(bits(""))).is_err());
}

#[test]
fn rice_rice_symmetry_test() {
    for i in 0..8usize {
        let gr = GolombRice_::new(i);
        let code = gr.encode_u8(b'h').unwrap();
        assert_eq!(gr.decode_u8(&code).unwrap().0, b'h');
        let stream = gr.encode(&b"hello world!".to_vec()).unwrap();
        assert_eq!(gr.decode(&stream).unwrap(), b"hello world!".to_vec());
    }
}

#[test]
fn rice_hist_k_test() {
    let gr = GolombRice_::from_seed(&seed_of(&[0u8; 0]));
    assert_eq!(gr.k(), 0);

    let gr = GolombRice_::from_seed(&seed_of(&[0u8; 100]));
    assert_eq!(gr.k(), 0);

    let gr = GolombRice_::from_seed(&seed_of(&vec![0u8; 100]));
    assert_eq!(gr.k(), 0);

    let all: Vec<u8> = (0..=255u8).collect();
    let gr = GolombRice_::from_seed(&seed_of(&all));
    assert_eq!(gr.k(), 6);

    let mut skewed: Vec<u8> = (0..=255u8).collect();
    skewed.extend(std::iter::repeat(0u8).take(1000));
    let gr = GolombRice_::from_seed(&seed_of(&skewed));
    assert_eq!(gr.k(), 4);
}

#[test]
fn rice_hist_symmetry_test() {
    let mut hist = Hist::from_seed(&seed_of(b"hello world!"));
    hist.sort();
    let gr = BijectEncoder::new(GolombRice_::from_hist(&hist), hist);
    assert_eq!(gr.encoder().k(), 1);
    assert_eq!(gr.encode_u8(b'h').unwrap().to_bools(), bits("11100"));
    assert_eq!(gr.decode_u8(&gr.encode_u8(b'h').unwrap()).unwrap(), (b'h', 5));
    assert_eq!(gr.encode(&b"hello world!".to_vec()).unwrap().len(), 40);
    assert_eq!(
        gr.decode(&gr.encode(&b"hello world!".to_vec()).unwrap()).unwrap(),
        b"hello world!".to_vec()
    );

    let mut hist = Hist::from_seed(&seed_of(b"hhhhh world!"));
    hist.sort();
    let gr = BijectEncoder::new(GolombRice_::from_hist(&hist), hist);
    assert_eq!(gr.encoder().k(), 1);
    assert_eq!(gr.encode_u8(b'h').unwrap().to_bools(), bits("00"));
    assert_eq!(gr.decode_u8(&gr.encode_u8(b'h').unwrap()).unwrap(), (b'h', 2));
    assert_eq!(gr.encode(&b"hhhhh world!".to_vec()).unwrap().len(), 36);
    assert_eq!(
        gr.decode(&gr.encode(&b"hhhhh world!".to_vec()).unwrap()).unwrap(),
        b"hhhhh world!".to_vec()
    );

    let mut hist = Hist::from_seed(&seed_of(b"hhhhhhhhhhh!"));
    hist.sort();
    let gr = BijectEncoder::new(GolombRice_::from_hist(&hist), hist);
    assert_eq!(gr.encoder().k(), 0);
    assert_eq!(gr.encode_u8(b'h').unwrap().to_bools(), bits("0"));
    assert_eq!(gr.decode_u8(&gr.encode_u8(b'h').unwrap()).unwrap(), (b'h', 1));
    assert_eq!(gr.encode(&b"hhhhhhhhhhh!".to_vec()).unwrap().len(), 13);
    assert_eq!(
        gr.decode(&gr.encode(&b"hhhhhhhhhhh!".to_vec()).unwrap()).unwrap(),
        b"hhhhhhhhhhh!".to_vec()
    );

    let mut hist = Hist::from_seed(&seed_of(b"hhhhhhhhhhhh"));
    hist.sort();
    let gr = BijectEncoder::new(GolombRice_::from_hist(&hist), hist);
    assert_eq!(gr.encoder().k(), 0);
    assert_eq!(gr.encode_u8(b'h').unwrap().to_bools(), bits("0"));
    assert_eq!(gr.decode_u8(&gr.encode_u8(b'h').unwrap()).unwrap(), (b'h', 1));
    assert_eq!(gr.encode(&b"hhhhhhhhhhhh".to_vec()).unwrap().len(), 12);
    assert_eq!(
        gr.decode(&gr.encode(&b"hhhhhhhhhhhh".to_vec()).unwrap()).unwrap(),
        b"hhhhhhhhhhhh".to_vec()
    );
}

#[test]
fn rice_width_variant_search_test() {
    let mut hist = Hist::new();
    for i in 0..=255u32 {
        hist.increment(i);
    }
    let gr = glz::rice::GolombRice::from_hist(None, 8, &hist).unwrap();
    assert_eq!(gr.width(), 8);
    // a uniform byte distribution is best served by the fixed field
    assert_eq!(gr.k(), 8);
    let gr = glz::rice::GolombRice::with_width(3, 12);
    assert_eq!(gr.k(), 3);
    assert_eq!(gr.width(), 12);
}
