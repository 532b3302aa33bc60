use rc5::transform::{from_bytes_to_words, from_words_to_bytes};
use rc5::Word;

#[test]
fn test_from_bytes_to_words() {
    let bytes: Vec<u8> = vec![0x12, 0x34, 0x56, 0x78];
    let expect: Vec<Word> = vec![0x78_56_34_12];
    let words: Vec<Word> = from_bytes_to_words(&bytes);
    assert_eq!(words, expect);
}

#[test]
fn test_from_bytes_to_words_with_zer_padding() {
    let bytes: Vec<u8> = vec![0x12, 0x34, 0x56];
    let expect: Vec<Word> = vec![0x56_34_12_00];
    let words: Vec<Word> = from_bytes_to_words(&bytes);
    assert_eq!(words, expect);
}

#[test]
fn test_from_words_to_bytes() {
    let words: Vec<Word> = vec![0x12_34_56_78];
    let expect: Vec<u8> = vec![0x78, 0x56, 0x34, 0x12];
    let bytes: Vec<u8> = from_words_to_bytes(&words);
    assert_eq!(bytes, expect);
}

#[test]
fn from_bytes_to_words_empty() {
    let bytes: Vec<u8> = vec![];
    let words: Vec<Word> = from_bytes_to_words(&bytes);
    assert!(words.is_empty());
}

#[test]
fn words_bytes_round_trip_aligned() {
    let bytes: Vec<u8> = vec![0xDE, 0xAD, 0xBE, 0xEF, 0x01, 0x02, 0x03, 0x04];
    let words = from_bytes_to_words(&bytes);
    let back = from_words_to_bytes(&words);
    assert_eq!(back, bytes);
}

#[test]
fn from_bytes_to_words_short_chunks() {
    let one: Vec<u8> = vec![0xAB];
    assert_eq!(from_bytes_to_words(&one), vec![0xAB_00_00_00]);
    let two: Vec<u8> = vec![0xAB, 0xCD];
    assert_eq!(from_bytes_to_words(&two), vec![0xCD_AB_00_00]);
}
