use distance_coding::{
    decode, decode_simple, encode_simple, DecodeError, DistanceSource, SliceSource, MTF,
};

fn decode_with(
    alphabet: Option<&[u8]>,
    n: usize,
    distances: &[usize],
) -> (Result<(), DecodeError>, Vec<u8>, usize) {
    let mut output = vec![0u8; n];
    let mut mtf = MTF::new();
    let mut source = SliceSource::new(distances);
    let result = decode(alphabet, &mut output, &mut mtf, &mut source);
    (result, output, source.taken)
}

#[test]
fn decode_simple_of_empty_block() {
    assert_eq!(decode_simple(0, &[], &[]), Vec::<u8>::new());
}

#[test]
fn decode_simple_of_one_symbol() {
    assert_eq!(decode_simple(4, b"a", &[0]), b"aaaa".to_vec());
    let (alphabet, distances) = encode_simple(b"aaaa");
    assert_eq!(decode_simple(4, &alphabet, &distances), b"aaaa".to_vec());
}

#[test]
fn decode_simple_exact_blocks() {
    assert_eq!(decode_simple(2, b"ab", &[0, 1, 0, 0]), b"ab".to_vec());
    assert_eq!(decode_simple(3, b"abc", &[0, 1, 2, 0, 0, 0]), b"abc".to_vec());
    assert_eq!(
        decode_simple(11, b"abrcd", &[0, 1, 2, 4, 6, 0, 2, 2, 0, 2, 0, 1, 0, 0, 0, 0]),
        b"abracadabra".to_vec()
    );
}

#[test]
fn decode_with_empty_alphabet() {
    assert_eq!(decode_with(Some(&[]), 0, &[5, 6]), (Ok(()), vec![], 0));
    assert_eq!(
        decode_with(Some(&[]), 3, &[5, 6]),
        (Err(DecodeError::InvalidAlphabet), vec![0, 0, 0], 0)
    );
}

#[test]
fn decode_with_one_symbol_draws_nothing() {
    assert_eq!(decode_with(Some(b"z"), 3, &[]), (Ok(()), b"zzz".to_vec(), 0));
    assert_eq!(decode_with(Some(b"z"), 0, &[1, 2]), (Ok(()), vec![], 0));
}

#[test]
fn decode_rejects_repeated_symbol() {
    assert_eq!(
        decode_with(Some(b"aba"), 3, &[0, 1, 2, 0, 0, 0]),
        (Err(DecodeError::InvalidAlphabet), vec![0, 0, 0], 0)
    );
    let long = vec![7u8; 300];
    assert_eq!(decode_with(Some(&long), 0, &[]).0, Err(DecodeError::InvalidAlphabet));
}

#[test]
fn decode_reports_end_of_stream() {
    // While the first distances are drawn.
    assert_eq!(
        decode_with(Some(b"ab"), 2, &[0]),
        (Err(DecodeError::EndOfStream), vec![0, 0], 1)
    );
    // After the first run.
    assert_eq!(
        decode_with(Some(b"ab"), 2, &[0, 1]),
        (Err(DecodeError::EndOfStream), vec![b'a', 0], 2)
    );
    assert_eq!(
        decode_with(Some(b"ab"), 2, &[0, 1, 0]),
        (Err(DecodeError::EndOfStream), vec![b'a', b'b'], 3)
    );
}

#[test]
fn decode_rejects_bad_distances() {
    // The second symbol is expected at the cursor: the run would not advance.
    assert_eq!(
        decode_with(Some(b"ab"), 2, &[0, 0, 0, 0]),
        (Err(DecodeError::InvalidDistance), vec![0, 0], 2)
    );
    // The second symbol is expected beyond the block.
    assert_eq!(
        decode_with(Some(b"ab"), 2, &[0, 3, 0, 0]),
        (Err(DecodeError::InvalidDistance), vec![0, 0], 2)
    );
    // A distance that leads beyond the end of the block.
    assert_eq!(
        decode_with(Some(b"ab"), 2, &[0, 1, 2, 0]),
        (Err(DecodeError::InvalidDistance), vec![b'a', 0], 3)
    );
    // At the end a symbol is still expected inside the block.
    assert_eq!(
        decode_with(Some(b"abc"), 1, &[0, 1, 0, 0]),
        (Err(DecodeError::InvalidDistance), b"a".to_vec(), 4)
    );
    // At the end a symbol is expected too far beyond the block.
    assert_eq!(
        decode_with(Some(b"abc"), 2, &[0, 1, 5, 0, 0, 0]),
        (Err(DecodeError::InvalidDistance), b"ab".to_vec(), 5)
    );
}

#[test]
fn decode_without_alphabet_equals_decode_with_all_symbols() {
    let identity: Vec<u8> = (0..=255u8).collect();
    let block: Vec<u8> = vec![0, 0, 1, 0, 2, 2, 1, 3, 0, 3, 3, 1];
    let n = block.len();
    let (alphabet, stream) = encode_simple(&block);
    assert_eq!(alphabet, vec![0, 1, 2, 3]);
    // Symbols that do not occur are expected as far beyond the block as allowed.
    let mut full = vec![n + 255; 256];
    full[..4].copy_from_slice(&stream[..4]);
    full.extend_from_slice(&stream[4..]);
    let without = decode_with(None, n, &full);
    let with = decode_with(Some(&identity), n, &full);
    assert_eq!(without, with);
    assert_eq!(without.0, Ok(()));
    assert_eq!(without.1, block);
    // The same on streams that fail.
    for cut in [0usize, 100, 256, 258, full.len() - 1] {
        let without = decode_with(None, n, &full[..cut]);
        let with = decode_with(Some(&identity), n, &full[..cut]);
        assert_eq!(without, with);
        assert_eq!(without.0, Err(DecodeError::EndOfStream));
    }
    let mut bad = full.clone();
    bad[1] = 0;
    assert_eq!(decode_with(None, n, &bad), decode_with(Some(&identity), n, &bad));
    assert_eq!(decode_with(None, n, &bad).0, Err(DecodeError::InvalidDistance));
}

#[test]
fn slice_source_hands_out_in_order() {
    let distances = [4usize, 9, 2];
    let mut source = SliceSource::new(&distances);
    assert_eq!(source.next_distance(b'x'), Ok(4));
    assert_eq!(source.next_distance(b'y'), Ok(9));
    assert_eq!(source.next_distance(b'x'), Ok(2));
    assert_eq!(source.next_distance(b'x'), Err(DecodeError::EndOfStream));
    assert_eq!(source.next_distance(b'z'), Err(DecodeError::EndOfStream));
    assert_eq!(source.taken, 3);
}

struct Failing {
    answers: Vec<usize>,
}

impl DistanceSource for Failing {
    fn next_distance(&mut self, _sym: u8) -> Result<usize, DecodeError> {
        if self.answers.is_empty() {
            Err(DecodeError::SourceFailed)
        } else {
            Ok(self.answers.remove(0))
        }
    }
}

#[test]
fn decode_hands_on_the_failure_of_the_source() {
    // The first distances of 'a' and 'b' are drawn and the first run is
    // written; the failure comes with the request that follows.
    let mut source = Failing { answers: vec![0, 1] };
    let mut output = vec![0u8; 3];
    let mut mtf = MTF::new();
    let result = decode(Some(b"ab"), &mut output, &mut mtf, &mut source);
    assert_eq!(result, Err(DecodeError::SourceFailed));
    assert_eq!(output, vec![b'a', 0, 0]);
    // While the first distances are drawn nothing is written.
    let mut source = Failing { answers: vec![0] };
    let mut output = vec![9u8; 3];
    let result = decode(Some(b"ab"), &mut output, &mut mtf, &mut source);
    assert_eq!(result, Err(DecodeError::SourceFailed));
    assert_eq!(output, vec![9, 9, 9]);
}

struct PerSymbol {
    queues: Vec<Vec<usize>>,
}

impl DistanceSource for PerSymbol {
    fn next_distance(&mut self, sym: u8) -> Result<usize, DecodeError> {
        if self.queues[sym as usize].is_empty() {
            Err(DecodeError::EndOfStream)
        } else {
            Ok(self.queues[sym as usize].remove(0))
        }
    }
}

#[test]
fn decode_asks_for_the_symbol_it_needs() {
    // "abab": the stream is 0 1 | 0 0 0 0; sorted by the symbol asked for.
    let (alphabet, stream) = encode_simple(b"abab");
    assert_eq!(stream, vec![0, 1, 0, 0, 0, 0]);
    let mut queues = vec![Vec::new(); 256];
    queues[b'a' as usize] = vec![0, 0, 0];
    queues[b'b' as usize] = vec![1, 0, 0];
    let mut source = PerSymbol { queues };
    let mut output = vec![0u8; 4];
    let mut mtf = MTF::new();
    let result = decode(Some(&alphabet), &mut output, &mut mtf, &mut source);
    assert_eq!(result, Ok(()));
    assert_eq!(output, b"abab".to_vec());
    assert!(source.queues.iter().all(|q| q.is_empty()));
}
