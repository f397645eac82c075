use bitcodec::codec::{deserialize, determine_bits_per_number, joined_decimal_len, serialize};
use bitcodec::CodecError;

const ALPHABET: &str = "ABCDEFGHIJKLMNOPQRSTUVWXYZabcdefghijklmnopqrstuvwxyz0123456789+/";

#[test]
fn encode_simple_short_header() {
    // width 4, short header: flag 0, count 000011, code 00,
    // fields 0001 0010 0011, pad 000 -> chunks 1, 32, 36, 24.
    let v: Vec<u16> = vec![1, 2, 3];
    assert_eq!(determine_bits_per_number(&v), 4);
    let s = serialize(&v).unwrap();
    assert_eq!(s, "BgkY");
}

#[test]
fn round_trip_simple() {
    let v: Vec<u16> = vec![1, 2, 3];
    let s = serialize(&v).unwrap();
    assert_eq!(deserialize(&s).unwrap(), v);
}

#[test]
fn round_trip_duplicates_and_boundaries() {
    let v: Vec<u16> = vec![1, 300, 150, 1, 1];
    let s = serialize(&v).unwrap();
    assert_eq!(deserialize(&s).unwrap(), v);
}

#[test]
fn round_trip_nine_single_digit() {
    let v: Vec<u16> = vec![1, 2, 3, 4, 5, 6, 7, 8, 9];
    let s = serialize(&v).unwrap();
    assert_eq!(deserialize(&s).unwrap(), v);
}

#[test]
fn width_selection_tiers() {
    assert_eq!(determine_bits_per_number(&vec![1, 9, 5]), 4);
    assert_eq!(determine_bits_per_number(&vec![9]), 4);
    assert_eq!(determine_bits_per_number(&vec![10]), 7);
    assert_eq!(determine_bits_per_number(&vec![99]), 7);
    assert_eq!(determine_bits_per_number(&vec![100]), 9);
    assert_eq!(determine_bits_per_number(&vec![300]), 9);
    // The maximum across the whole sequence decides, not each element.
    assert_eq!(determine_bits_per_number(&vec![5, 10]), 7);
    assert_eq!(determine_bits_per_number(&vec![5, 7, 100]), 9);
}

#[test]
fn width_nine_for_three_digit_range() {
    let v: Vec<u16> = (0..300).map(|i| 100 + (i % 201) as u16).collect();
    assert_eq!(determine_bits_per_number(&v), 9);
    let s = serialize(&v).unwrap();
    assert_eq!(deserialize(&s).unwrap(), v);
}

#[test]
fn short_header_up_to_63() {
    let v: Vec<u16> = vec![5; 63];
    let s = serialize(&v).unwrap();
    // flag 0: the first 6-bit group starts with a 0 bit, so its value is
    // below 32 and the first character is in the first half of the alphabet.
    let first = ALPHABET.find(s.chars().next().unwrap()).unwrap();
    assert!(first < 32);
    assert_eq!(deserialize(&s).unwrap(), v);
}

#[test]
fn long_header_from_64() {
    // 64 fives: flag 1, count 0001000000, so the first group is 100010 = 34.
    let v: Vec<u16> = vec![5; 64];
    assert_eq!(determine_bits_per_number(&v), 4);
    let s = serialize(&v).unwrap();
    assert_eq!(s.chars().next().unwrap(), 'i');
    let first = ALPHABET.find('i').unwrap();
    assert_eq!(first, 34);
    assert_eq!(deserialize(&s).unwrap(), v);
}

#[test]
fn empty_sequence_round_trips() {
    let v: Vec<u16> = vec![];
    let s = serialize(&v).unwrap();
    assert_eq!(deserialize(&s).unwrap(), v);
}

#[test]
fn alphabet_closure_of_output() {
    let inputs: Vec<Vec<u16>> = vec![
        vec![1, 2, 3],
        vec![1, 300, 150, 1, 1],
        vec![5; 64],
        (0..300).map(|i| (i % 9 + 1) as u16).collect(),
        (0..300).map(|i| (10 + i % 90) as u16).collect(),
    ];
    for v in inputs {
        let s = serialize(&v).unwrap();
        for c in s.chars() {
            assert!(ALPHABET.contains(c));
        }
    }
}

#[test]
fn padding_bits_are_never_read() {
    // "BgkY" ends with three pad bits; the last character covers the tail
    // of the last field (011) plus the pad, so indices 24..=31 all stand
    // for the same data bits.
    for last in ['Y', 'Z', 'a', 'b', 'c', 'd', 'e', 'f'] {
        let mut s = String::from("Bgk");
        s.push(last);
        assert_eq!(deserialize(&s).unwrap(), vec![1, 2, 3]);
    }
}

#[test]
fn range_errors() {
    assert_eq!(serialize(&vec![0]), Err(CodecError::RangeError));
    assert_eq!(serialize(&vec![301]), Err(CodecError::RangeError));
    assert_eq!(serialize(&vec![1, 2, 0, 3]), Err(CodecError::RangeError));
    assert_eq!(serialize(&vec![1, 2, 301]), Err(CodecError::RangeError));
}

#[test]
fn invalid_character_rejected() {
    assert_eq!(deserialize("!"), Err(CodecError::InvalidCharacter));
    assert_eq!(deserialize("Bg!Y"), Err(CodecError::InvalidCharacter));
}

#[test]
fn truncated_input_rejected() {
    // "Bg" declares 3 four-bit fields but only 3 bits follow the header.
    assert_eq!(deserialize("Bg"), Err(CodecError::TruncatedInput));
    assert_eq!(deserialize(""), Err(CodecError::TruncatedInput));
}

#[test]
fn invalid_header_code_rejected() {
    // "AY" carries flag 0, count 0, then the unassigned width code 11.
    assert_eq!(deserialize("AY"), Err(CodecError::InvalidHeader));
}

#[test]
fn round_trip_three_of_each() {
    let v: Vec<u16> = (1..=300u16).flat_map(|n| vec![n; 3]).collect();
    assert_eq!(v.len(), 900);
    let s = serialize(&v).unwrap();
    assert_eq!(deserialize(&s).unwrap(), v);
}

#[test]
fn round_trip_longest_supported() {
    let v: Vec<u16> = (0..1023).map(|i| (i % 300 + 1) as u16).collect();
    let s = serialize(&v).unwrap();
    assert_eq!(deserialize(&s).unwrap(), v);
}

#[test]
fn joined_decimal_len_counts_digits_and_commas() {
    assert_eq!(joined_decimal_len(&vec![1, 2, 3]), 5);
    assert_eq!(joined_decimal_len(&vec![300]), 3);
    assert_eq!(joined_decimal_len(&vec![9, 10, 100]), 8);
    let v: Vec<u16> = vec![7; 10];
    assert_eq!(joined_decimal_len(&v), 19);
}

#[test]
fn encoding_beats_naive_text_on_large_numbers() {
    let v: Vec<u16> = (0..300).map(|i| 100 + (i % 201) as u16).collect();
    let s = serialize(&v).unwrap();
    // 300 three-digit numbers: naive text is 1199 bytes, the encoding
    // packs 9 bits per number into 6-bit symbols.
    let naive = joined_decimal_len(&v);
    assert_eq!(naive, 1199);
    assert!(s.len() < naive);
}
