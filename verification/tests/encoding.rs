use distance_coding::{encode, encode_simple, MTF};

#[test]
fn encode_simple_of_empty_block_is_empty() {
    let (alphabet, distances) = encode_simple(b"");
    assert_eq!(alphabet, Vec::<u8>::new());
    assert_eq!(distances, Vec::<usize>::new());
}

#[test]
fn encode_simple_of_one_symbol() {
    let (alphabet, distances) = encode_simple(b"aaaa");
    assert_eq!(alphabet, vec![b'a']);
    // The position of the first occurrence, then the gap of the only run end.
    assert_eq!(distances, vec![0, 0]);
}

#[test]
fn encode_simple_exact_streams() {
    assert_eq!(encode_simple(b"ab"), (b"ab".to_vec(), vec![0, 1, 0, 0]));
    assert_eq!(encode_simple(b"abc"), (b"abc".to_vec(), vec![0, 1, 2, 0, 0, 0]));
    assert_eq!(
        encode_simple(b"teeesst_dc"),
        (b"tes_dc".to_vec(), vec![0, 1, 4, 7, 8, 9, 3, 1, 0, 0, 0, 0, 0])
    );
    assert_eq!(
        encode_simple(b"abracadabra"),
        (b"abrcd".to_vec(), vec![0, 1, 2, 4, 6, 0, 2, 2, 0, 2, 0, 1, 0, 0, 0, 0])
    );
}

#[test]
fn encode_simple_stream_length() {
    let block = b"mississippi";
    let (alphabet, distances) = encode_simple(block);
    let run_ends = (0..block.len())
        .filter(|&p| p + 1 == block.len() || block[p + 1] != block[p])
        .count();
    assert_eq!(alphabet, b"misp".to_vec());
    assert_eq!(distances.len(), alphabet.len() + run_ends);
}

#[test]
fn encode_fills_slots_and_lists_first_positions() {
    let block = b"teeesst_dc";
    let mut distances = vec![77usize; block.len()];
    let mut mtf = MTF::new();
    let unique = encode(block, &mut distances, &mut mtf);
    assert_eq!(
        unique,
        vec![(b't', 0), (b'e', 1), (b's', 4), (b'_', 7), (b'd', 8), (b'c', 9)]
    );
    // Unused slots hold the block length: they are followed by the same symbol.
    assert_eq!(distances, vec![3, 10, 10, 1, 10, 0, 0, 0, 0, 0]);
    for p in 0..block.len() - 1 {
        if distances[p] == block.len() {
            assert_eq!(block[p], block[p + 1]);
        }
    }
}

#[test]
fn encode_leaves_table_in_recency_order() {
    let block = b"abracadabra";
    let mut distances = vec![0usize; block.len()];
    let mut mtf = MTF::new();
    mtf.reset_alphabetical();
    let unique = encode(block, &mut distances, &mut mtf);
    assert_eq!(unique.len(), 5);
    let front: Vec<u8> = (0..5u8).map(|r| peek(&mut mtf, r)).collect();
    assert_eq!(front, b"arbdc".to_vec());
    // The ranks behind the symbols of the block keep what they held.
    for r in 5..=255u8 {
        assert_eq!(peek(&mut mtf, r), r);
    }
}

#[test]
fn encode_seeds_a_fresh_table() {
    let block = b"xyzzy";
    let mut distances = vec![0usize; block.len()];
    let mut mtf = MTF::new();
    encode(block, &mut distances, &mut mtf);
    let front: Vec<u8> = (0..4u8).map(|r| peek(&mut mtf, r)).collect();
    assert_eq!(front, vec![b'y', b'z', b'x', 0]);
}

/// The symbol at `rank`, read by decoding; the table is left as it was.
fn peek(mtf: &mut MTF, rank: u8) -> u8 {
    let sym = mtf.decode(rank);
    // Each further decoding of the same rank turns the first ranks once more;
    // after `rank` of them they stand as before.
    for _ in 0..rank {
        mtf.decode(rank);
    }
    sym
}
