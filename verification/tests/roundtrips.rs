use distance_coding::{decode_simple, encode_simple, MTF};

const SAMPLE_TEXT: &[u8] = b"Lorem ipsum dolor sit amet, consectetur adipiscing elit, sed do eiusmod \
tempor incididunt ut labore et dolore magna aliqua. Ut enim ad minim veniam, quis nostrud \
exercitation ullamco laboris nisi ut aliquip ex ea commodo consequat.\n\
Duis aute irure dolor in reprehenderit in voluptate velit esse cillum dolore eu fugiat nulla \
pariatur. Excepteur sint occaecat cupidatat non proident, sunt in culpa qui officia deserunt \
mollit anim id est laborum.\n\
aaaaaaaaaaaaaaaabbbbbbbbbbbbbbbbaaaaaaaaccccccccccccccccccccccccccccccccccccccccccccddddddddd\n";

fn roundtrip_dc(bytes: &[u8]) {
    let (alphabet, distances) = encode_simple(bytes);
    let decoded = decode_simple(bytes.len(), &alphabet, &distances);
    assert_eq!(&decoded[..], bytes);
}

fn roundtrip_mtf(bytes: &[u8]) {
    let mut mtf = MTF::new();
    mtf.reset_alphabetical();
    let ranks: Vec<u8> = bytes.iter().map(|&sym| mtf.encode(sym)).collect();
    mtf.reset_alphabetical();
    let decoded: Vec<u8> = ranks.iter().map(|&r| mtf.decode(r)).collect();
    assert_eq!(&decoded[..], bytes);
}

#[test]
fn some_roundtrips_dc() {
    roundtrip_dc(b"teeesst_dc");
    roundtrip_dc(b"");
    roundtrip_dc(SAMPLE_TEXT);
}

#[test]
fn some_roundtrips_mtf() {
    roundtrip_mtf(b"teeesst_mtf");
    roundtrip_mtf(b"");
    roundtrip_mtf(SAMPLE_TEXT);
}

#[test]
fn roundtrip_dc_abracadabra() {
    let (alphabet, distances) = encode_simple(b"abracadabra");
    assert_eq!(alphabet, b"abrcd".to_vec());
    let decoded = decode_simple(11, &alphabet, &distances);
    assert_eq!(decoded.len(), 11);
    assert_eq!(&decoded[..], b"abracadabra");
}

#[test]
fn roundtrip_dc_teeesst() {
    let (alphabet, distances) = encode_simple(b"teeesst_dc");
    let decoded = decode_simple(10, &alphabet, &distances);
    assert_eq!(decoded.len(), 10);
    assert_eq!(&decoded[..], b"teeesst_dc");
}

#[test]
fn roundtrip_dc_every_short_block_over_three_symbols() {
    for len in 0..8usize {
        let mut count = 1usize;
        for _ in 0..len {
            count *= 3;
        }
        for code in 0..count {
            let mut block = Vec::new();
            let mut rest = code;
            for _ in 0..len {
                block.push(b'a' + (rest % 3) as u8);
                rest /= 3;
            }
            roundtrip_dc(&block);
        }
    }
}

#[test]
fn roundtrip_dc_all_byte_values() {
    let mut block = Vec::new();
    for round in 0..3u32 {
        for value in 0..=255u8 {
            block.push(value.wrapping_mul(7).wrapping_add(round as u8));
            if value % 5 == 0 {
                block.push(value);
            }
        }
    }
    roundtrip_dc(&block);
}
