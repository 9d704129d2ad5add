use glz::hist::Hist;

#[test]
fn hist_simple_hist_test() {
    let mut hist = Hist::new();
    for i in 0..100u32 {
        hist.increment(i);
    }
    assert_eq!(hist.get(0u32), 1);
    assert_eq!(hist.get(99u32), 1);
    assert_eq!(hist.lower(), Some((0u32, 1)));
    assert_eq!(hist.upper(), Some((99u32, 1)));
    assert_eq!(hist.sum(), 100);

    let mut hist = Hist::new();
    for i in 0..100u32 {
        hist.increment_by(i, i as usize);
    }
    assert_eq!(hist.get(0u32), 0);
    assert_eq!(hist.get(99u32), 99);
    assert_eq!(hist.min(), Some((1u32, 1)));
    assert_eq!(hist.max(), Some((99u32, 99)));
    assert_eq!(hist.lower(), Some((1u32, 1)));
    assert_eq!(hist.upper(), Some((99u32, 99)));
    assert_eq!(hist.sum(), 99 * 100 / 2);

    let mut hist = Hist::new();
    for _ in 0..100u32 {
        hist.increment(99u32);
    }
    assert_eq!(hist.get(0u32), 0);
    assert_eq!(hist.get(99u32), 100);
    assert_eq!(hist.min(), Some((99u32, 100)));
    assert_eq!(hist.max(), Some((99u32, 100)));
    assert_eq!(hist.lower(), Some((99u32, 100)));
    assert_eq!(hist.upper(), Some((99u32, 100)));
    assert_eq!(hist.sum(), 100);
}

#[test]
fn hist_bounded_hist_test() {
    let mut hist = Hist::new();
    for i in 0..100u32 {
        hist.increment(i);
    }
    assert_eq!(hist.get(0u32), 1);
    assert_eq!(hist.get(99u32), 1);
    assert_eq!(hist.get_bounded(0u32, 50), 2);
    assert_eq!(hist.get_bounded(49u32, 50), 2);
    assert_eq!(hist.lower(), Some((0u32, 1)));
    assert_eq!(hist.upper(), Some((99u32, 1)));
    assert_eq!(hist.lower_bounded(50), Some((0u32, 2)));
    assert_eq!(hist.upper_bounded(50), Some((49u32, 2)));
    assert_eq!(hist.sum(), 100);

    let mut hist = Hist::new();
    for i in 0..100u32 {
        hist.increment_by(i, i as usize);
    }
    assert_eq!(hist.get(0u32), 0);
    assert_eq!(hist.get(99u32), 99);
    assert_eq!(hist.get_bounded(0u32, 50), 0 + 50);
    assert_eq!(hist.get_bounded(49u32, 50), 49 + 99);
    assert_eq!(hist.min(), Some((1u32, 1)));
    assert_eq!(hist.max(), Some((99u32, 99)));
    assert_eq!(hist.min_bounded(50), Some((0u32, 0 + 50)));
    assert_eq!(hist.max_bounded(50), Some((49u32, 49 + 99)));
    assert_eq!(hist.lower(), Some((1u32, 1)));
    assert_eq!(hist.upper(), Some((99u32, 99)));
    assert_eq!(hist.lower_bounded(50), Some((0u32, 0 + 50)));
    assert_eq!(hist.upper_bounded(50), Some((49u32, 49 + 99)));
    assert_eq!(hist.sum(), 99 * 100 / 2);

    let mut hist = Hist::new();
    for _ in 0..100u32 {
        hist.increment(99u32);
    }
    assert_eq!(hist.get(0u32), 0);
    assert_eq!(hist.get(99u32), 100);
    assert_eq!(hist.get_bounded(0u32, 50), 0);
    assert_eq!(hist.get_bounded(49u32, 50), 100);
    assert_eq!(hist.min(), Some((99u32, 100)));
    assert_eq!(hist.max(), Some((99u32, 100)));
    assert_eq!(hist.min_bounded(50), Some((49u32, 100)));
    assert_eq!(hist.max_bounded(50), Some((49u32, 100)));
    assert_eq!(hist.lower(), Some((99u32, 100)));
    assert_eq!(hist.upper(), Some((99u32, 100)));
    assert_eq!(hist.lower_bounded(50), Some((49u32, 100)));
    assert_eq!(hist.upper_bounded(50), Some((49u32, 100)));
    assert_eq!(hist.sum(), 100);
}

#[test]
fn hist_sorted_hist_test() {
    let mut hist = Hist::new();
    for i in 0..100u32 {
        hist.increment(i);
    }
    hist.sort();
    assert_eq!(hist.get(0u32), 1);
    assert_eq!(hist.get(99u32), 1);
    assert_eq!(hist.lower(), Some((0u32, 1)));
    assert_eq!(hist.upper(), Some((99u32, 1)));
    assert_eq!(hist.sum(), 100);

    let mut hist = Hist::new();
    for i in 0..100u32 {
        hist.increment_by(i, i as usize);
    }
    hist.sort();
    assert_eq!(hist.get(0u32), 99);
    assert_eq!(hist.get(99u32), 0);
    assert_eq!(hist.min(), Some((98u32, 1)));
    assert_eq!(hist.max(), Some((0u32, 99)));
    assert_eq!(hist.lower(), Some((0u32, 99)));
    assert_eq!(hist.upper(), Some((98u32, 1)));
    assert_eq!(hist.sum(), 99 * 100 / 2);

    let mut hist = Hist::new();
    for _ in 0..100u32 {
        hist.increment(99u32);
    }
    hist.sort();
    assert_eq!(hist.get(0u32), 100);
    assert_eq!(hist.get(99u32), 0);
    assert_eq!(hist.min(), Some((0u32, 100)));
    assert_eq!(hist.max(), Some((0u32, 100)));
    assert_eq!(hist.lower(), Some((0u32, 100)));
    assert_eq!(hist.upper(), Some((0u32, 100)));
    assert_eq!(hist.sum(), 100);
}

#[test]
fn hist_sort_bounded_hist_test() {
    let mut hist = Hist::new();
    for i in 0..100u32 {
        hist.increment(i);
    }
    hist.sort_bounded(50);
    assert_eq!(hist.get(0u32), 1);
    assert_eq!(hist.get(99u32), 1);
    assert_eq!(hist.get_bounded(0u32, 50), 2);
    assert_eq!(hist.get_bounded(49u32, 50), 2);
    assert_eq!(hist.lower(), Some((0u32, 1)));
    assert_eq!(hist.upper(), Some((99u32, 1)));
    assert_eq!(hist.lower_bounded(50), Some((0u32, 2)));
    assert_eq!(hist.upper_bounded(50), Some((49u32, 2)));
    assert_eq!(hist.sum(), 100);

    let mut hist = Hist::new();
    for i in 0..100u32 {
        hist.increment_by(i, i as usize);
    }
    hist.sort_bounded(50);
    assert_eq!(hist.get(0u32), 49);
    assert_eq!(hist.get(99u32), 50);
    assert_eq!(hist.get_bounded(0u32, 50), 49 + 99);
    assert_eq!(hist.get_bounded(49u32, 50), 0 + 50);
    assert_eq!(hist.min(), Some((48u32, 1)));
    assert_eq!(hist.max(), Some((50u32, 99)));
    assert_eq!(hist.min_bounded(50), Some((49u32, 0 + 50)));
    assert_eq!(hist.max_bounded(50), Some((0u32, 49 + 99)));
    assert_eq!(hist.lower(), Some((0u32, 49)));
    assert_eq!(hist.upper(), Some((99u32, 50)));
    assert_eq!(hist.lower_bounded(50), Some((0u32, 49 + 99)));
    assert_eq!(hist.upper_bounded(50), Some((49u32, 0 + 50)));
    assert_eq!(hist.sum(), 99 * 100 / 2);

    let mut hist = Hist::new();
    for _ in 0..100u32 {
        hist.increment(99u32);
    }
    hist.sort_bounded(50);
    assert_eq!(hist.get(0u32), 0);
    assert_eq!(hist.get(99u32), 0);
    assert_eq!(hist.get(50u32), 100);
    assert_eq!(hist.get_bounded(0u32, 50), 100);
    assert_eq!(hist.get_bounded(49u32, 50), 0);
    assert_eq!(hist.min(), Some((50u32, 100)));
    assert_eq!(hist.max(), Some((50u32, 100)));
    assert_eq!(hist.min_bounded(50), Some((0u32, 100)));
    assert_eq!(hist.max_bounded(50), Some((0u32, 100)));
    assert_eq!(hist.lower(), Some((50u32, 100)));
    assert_eq!(hist.upper(), Some((50u32, 100)));
    assert_eq!(hist.lower_bounded(50), Some((0u32, 100)));
    assert_eq!(hist.upper_bounded(50), Some((0u32, 100)));
    assert_eq!(hist.sum(), 100);
}

#[test]
fn hist_map_roundtrip_test() {
    // the remap derived from any histogram inverts itself exactly
    let mut hist = Hist::new();
    for &b in b"abracadabra" {
        hist.increment(b as u32);
    }
    hist.sort();
    for n in 0..200u32 {
        let enc = hist.map_encode(n).unwrap();
        assert_eq!(hist.map_decode(enc).unwrap(), n);
    }
    assert_eq!(hist.map_encode(b'a' as u32).unwrap(), 0);
}

#[test]
fn hist_decrement_test() {
    let mut hist = Hist::new();
    hist.increment(7u32);
    hist.increment(7u32);
    hist.decrement(7u32);
    assert_eq!(hist.get(7u32), 1);
    hist.decrement_by(7u32, 1);
    assert_eq!(hist.get(7u32), 0);
    assert_eq!(hist.bound(), 0);
    hist.increment(3u32);
    assert_eq!(hist.bound(), 4);
}

#[test]
fn hist_compact_test() {
    // symbols the histogram never saw are trimmed off the table's tail
    let mut hist = Hist::with_table(&vec![0u32, 1, 2]);
    hist.increment(0u32);
    hist.increment(0u32);
    hist.increment(1u32);
    hist.compact();
    assert_eq!(hist.decode_table(), vec![0u32, 1]);
    assert_eq!(hist.get(0u32), 2);
    assert_eq!(hist.get(1u32), 1);

    // the scan reads raw counts, not remapped ones: after a sort the
    // table entries are symbols, and only the never-seen symbol's rank
    // is cut, even though it does not sit at the raw tail
    let mut hist = Hist::new();
    for _ in 0..5 {
        hist.increment(0u32);
    }
    for _ in 0..7 {
        hist.increment(2u32);
    }
    hist.sort();
    assert_eq!(hist.decode_table(), vec![2u32, 0, 1]);
    hist.compact();
    assert_eq!(hist.decode_table(), vec![2u32, 0]);
}
