use distance_coding::MTF;

#[test]
fn mtf_encode_reports_rank_and_moves_to_front() {
    let mut mtf = MTF::new();
    mtf.reset_alphabetical();
    assert_eq!(mtf.encode(5), 5);
    assert_eq!(mtf.encode(5), 0);
    assert_eq!(mtf.encode(0), 1);
    assert_eq!(mtf.encode(4), 5);
    assert_eq!(mtf.encode(6), 6);
    assert_eq!(mtf.encode(255), 255);
    assert_eq!(mtf.encode(254), 255);
}

#[test]
fn mtf_encode_at_rank_zero_changes_nothing() {
    let mut mtf = MTF::new();
    mtf.reset_alphabetical();
    mtf.encode(9);
    mtf.encode(3);
    let before: Vec<u8> = table(&mut mtf);
    assert_eq!(before[0], 3);
    assert_eq!(mtf.encode(3), 0);
    assert_eq!(table(&mut mtf), before);
}

#[test]
fn mtf_decode_reports_symbol_and_moves_to_front() {
    let mut mtf = MTF::new();
    mtf.reset_alphabetical();
    assert_eq!(mtf.decode(7), 7);
    assert_eq!(mtf.decode(0), 7);
    assert_eq!(mtf.decode(1), 0);
    assert_eq!(mtf.decode(7), 6);
    assert_eq!(mtf.decode(8), 8);
    let now = table(&mut mtf);
    assert_eq!(&now[..9], &[8, 6, 0, 7, 1, 2, 3, 4, 5]);
    assert_eq!(now[9], 9);
    assert_eq!(now[255], 255);
}

#[test]
fn mtf_new_is_zeroed_and_reset_is_alphabetical() {
    let mut mtf = MTF::new();
    assert_eq!(table(&mut mtf), vec![0u8; 256]);
    mtf.reset_alphabetical();
    let expected: Vec<u8> = (0..=255u8).collect();
    assert_eq!(table(&mut mtf), expected);
}

#[test]
fn mtf_stays_a_permutation() {
    let mut mtf = MTF::new();
    mtf.reset_alphabetical();
    for step in 0..1000u32 {
        let value = (step.wrapping_mul(2654435761) >> 24) as u8;
        if step % 2 == 0 {
            mtf.encode(value);
        } else {
            mtf.decode(value);
        }
    }
    let mut now = table(&mut mtf);
    now.sort();
    let expected: Vec<u8> = (0..=255u8).collect();
    assert_eq!(now, expected);
}

#[test]
fn mtf_encode_then_decode_in_lockstep() {
    let mut encoder = MTF::new();
    let mut decoder = MTF::new();
    encoder.reset_alphabetical();
    decoder.reset_alphabetical();
    for &sym in b"the quick brown fox jumps over the lazy dog".iter() {
        let rank = encoder.encode(sym);
        assert_eq!(decoder.decode(rank), sym);
    }
    assert_eq!(table(&mut encoder), table(&mut decoder));
}

/// The whole table, read by decoding; the table is left as it was.
fn table(mtf: &mut MTF) -> Vec<u8> {
    let mut symbols = Vec::new();
    for rank in 0..=255u8 {
        let sym = mtf.decode(rank);
        for _ in 0..rank {
            mtf.decode(rank);
        }
        symbols.push(sym);
    }
    symbols
}
