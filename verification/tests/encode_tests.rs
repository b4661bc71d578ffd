use succinct_trie::popcount::{popcount_linear, select64_popcount_search};
use succinct_trie::trajectory::{MixType, base8_encoding, decode_hex_key, hex_to_num, mix,
    periodical_encoding, stable_ctlz};

#[test]
fn stable_ctlz_test() {
    assert_eq!(stable_ctlz(u32::MAX), 0);
    assert_eq!(stable_ctlz(u32::MIN), 32);
    assert_eq!(stable_ctlz(1209600), 11);
    assert_eq!(stable_ctlz(10000000), 8);
}

#[test]
fn base8_encoding_test() {
    assert_eq!(
        base8_encoding(&(0b0000000000110110110110 as u128), 12),
        vec![13, 182]
    );
    assert_eq!(base8_encoding(&(0b0000110110110110 as u128), 12), vec![13, 182]);
    assert_eq!(
        base8_encoding(
            &(0b11111111111111111111111111111111111111110000110110110110 as u128),
            40
        ),
        vec![255, 255, 255, 13, 182]
    );
}

#[test]
fn mix_test() {
    assert_eq!(
        mix(&MixType::Mix, 0b1010u32, 0b1010u32, 4, 0b1010u32, 4),
        (0b111000111000 as u128, 4 + 4 + 4)
    );
    assert_eq!(
        mix(&MixType::Mix, 0b1010u32, 0b1010u32, 4, 0b0000001010u32, 10),
        (0b000000111000111000 as u128, 4 + 4 + 10)
    );
    assert_eq!(
        mix(&MixType::Mix, 0b1010u32, 0b1010u32, 4, 0b0000001010u32, 3),
        (0b11000111000 as u128, 4 + 4 + 3)
    );
    assert_eq!(
        mix(&MixType::Seperate, 0b1010u32, 0b1010u32, 4, 0b1010u32, 4),
        (0b110011001010 as u128, 4 + 4 + 4)
    );
}

#[test]
fn periodical_encoding_test() {
    assert_eq!(
        periodical_encoding(1598555555, (1597849200, 1599058800), 27),
        (22073, 16)
    );
}

#[test]
fn hex_digits_decode_exactly() {
    assert_eq!(hex_to_num(b'0'), Some(0));
    assert_eq!(hex_to_num(b'9'), Some(9));
    assert_eq!(hex_to_num(b'a'), Some(10));
    assert_eq!(hex_to_num(b'f'), Some(15));
    assert_eq!(hex_to_num(b'g'), None);
    assert_eq!(hex_to_num(b'A'), None);
}

#[test]
fn hex_lines_decode_to_key_bytes() {
    assert_eq!(decode_hex_key(b"bc0e55e80b9735"), Some(vec![188, 14, 85, 232, 11, 151, 53]));
    assert_eq!(decode_hex_key(b""), Some(vec![]));
    assert_eq!(decode_hex_key(b"0"), Some(vec![]));
    assert_eq!(decode_hex_key(b"zz"), None);
}

#[test]
fn popcount_primitives_count_and_locate_bits() {
    // bit 0 is the most significant bit of a word
    let words: Vec<u64> = vec![0x8000000000000001u64, 0xF000000000000000u64];
    assert_eq!(popcount_linear(&words, 0, 64), 2);
    assert_eq!(popcount_linear(&words, 0, 128), 6);
    assert_eq!(popcount_linear(&words, 1, 4), 4);
    assert_eq!(select64_popcount_search(0x8000000000000001u64, 1), 0);
    assert_eq!(select64_popcount_search(0x8000000000000001u64, 2), 63);
    assert_eq!(select64_popcount_search(0xF000000000000000u64, 3), 2);
}
