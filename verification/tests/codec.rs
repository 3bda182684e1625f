use tenten::codec::{Decoder, Encoder};

#[test]
fn serialize_6bits() {
    let mut encoder = Encoder::new();
    encoder.push(0b111111, 6).unwrap();
    assert_eq!(encoder.result(), "~".to_owned());
}

#[test]
fn serialize_8bits() {
    let mut encoder = Encoder::new();
    encoder.push(0b11111100, 8).unwrap();
    assert_eq!(encoder.result(), "~a".to_owned());
}

#[test]
fn serialize_16bits() {
    let mut encoder = Encoder::new();
    encoder.push(0b111111000000, 12).unwrap();
    assert_eq!(encoder.result(), "~a".to_owned());
}

#[test]
fn serialize_6_empty_bits() {
    let mut encoder = Encoder::new();
    encoder.push(0, 6).unwrap();
    assert_eq!(encoder.result(), "a".to_owned());
}

#[test]
fn serialize_full_byte() {
    let mut encoder = Encoder::new();
    encoder.push(42, 8).unwrap();
    assert_eq!(encoder.result(), "kG".to_owned());
}

#[test]
fn serialize_6bit_int() {
    let mut encoder = Encoder::new();
    encoder.push(42, 6).unwrap();
    assert_eq!(encoder.result(), "Q".to_owned());
}

#[test]
fn to_many_to_push() {
    let mut encoder = Encoder::new();
    assert_eq!(encoder.push(0, 65), None);
}

#[test]
fn deserialize_6_set_bits() {
    let mut decoder = Decoder::decode("~").unwrap();
    assert_eq!(decoder.take(6), Some(0b111111));
}

#[test]
fn deserialize_6_empty_bits() {
    let mut decoder = Decoder::decode("a").unwrap();
    assert_eq!(decoder.take(6), Some(0));
}

#[test]
fn deserialize_full_byte() {
    let mut decoder = Decoder::decode("kG").unwrap();
    assert_eq!(decoder.take(8), Some(42));
}

#[test]
fn golden_path() {
    for store_bits in [6, 8, 16, 24, 32] {
        let original: Vec<u64> = vec![4, 8, 15, 16, 23, 42];

        let mut encoder = Encoder::new();
        for item in &original {
            encoder.push(*item, store_bits);
        }
        let result = encoder.result();

        let mut decoder = Decoder::decode(&result).unwrap();
        let mut deserialized = Vec::with_capacity(original.len());
        for _ in 0..original.len() {
            deserialized.push(decoder.take(store_bits).unwrap());
        }

        assert_eq!(original, deserialized, "store_bits = {store_bits}");
    }
}

#[test]
fn check_pattern() {
    let pattern_size = 6;
    let patterns: Vec<(u64, Vec<u64>)> = vec![
        (0b101010, vec![1, 0, 1, 0, 1, 0]),
        (0b010101, vec![0, 1, 0, 1, 0, 1]),
        (0b110011, vec![1, 1, 0, 0, 1, 1]),
        (0b001100, vec![0, 0, 1, 1, 0, 0]),
    ];

    for (pattern, expected) in patterns {
        let mut encoder = Encoder::new();
        encoder.push(pattern, pattern_size);
        let result = encoder.result();

        let mut decoder = Decoder::decode(&result).unwrap();
        let mut result = Vec::new();
        for _ in 0..pattern_size {
            result.push(decoder.take(1).unwrap());
        }

        assert_eq!(result, expected);
    }
}

#[test]
fn unaligned_data() {
    let sizes: Vec<u8> = vec![1, 6, 16, 32];
    let expected: Vec<u64> = vec![1, 42, 420, 4444];

    let mut encoder = Encoder::new();
    for (value, size) in expected.iter().zip(&sizes) {
        encoder.push(*value, *size);
    }
    let encoded = encoder.result();

    let mut decoder = Decoder::decode(&encoded).unwrap();
    let mut result = vec![];
    for size in sizes {
        result.push(decoder.take(size).unwrap());
    }

    assert_eq!(result, expected);
}

#[test]
fn skip_bits() {
    let mut encoder = Encoder::new();
    encoder.push(0b10100101, 8);
    let encoded = encoder.result();

    let mut decoder = Decoder::decode(&encoded).unwrap();
    decoder.skip(4);

    assert_eq!(decoder.take(4), Some(0b0101));
}

#[test]
fn length_formula() {
    // one encoded character for each started group of six bits
    for (widths, expected_len) in [
        (vec![], 0usize),
        (vec![1u8], 1),
        (vec![6], 1),
        (vec![6, 1], 2),
        (vec![32, 32], 11),
        (vec![64, 64, 64], 32),
    ] {
        let total: usize = widths.iter().map(|w| *w as usize).sum();
        let mut encoder = Encoder::new();
        for w in widths {
            encoder.push(0, w).unwrap();
        }
        let encoded = encoder.result();
        assert_eq!(encoded.chars().count(), expected_len);
        assert_eq!(encoded.chars().count(), (total + 5) / 6);
    }
}

#[test]
fn alphabet_closure() {
    let alphabet = "abcdefghijklmnopqrstuvwxyzABCDEFGHIJKLMNOPQRSTUVWXYZ0123456789+~";
    let mut encoder = Encoder::new();
    encoder.push(0xdead_beef_dead_beef, 64).unwrap();
    encoder.push(12345, 17).unwrap();
    let encoded = encoder.result();
    assert!(!encoded.is_empty());
    for c in encoded.chars() {
        assert!(alphabet.contains(c));
    }
}

#[test]
fn decode_rejects_foreign_characters() {
    assert!(Decoder::decode("abc!").is_none());
    assert!(Decoder::decode(" ").is_none());
    assert!(Decoder::decode("=").is_none());
    assert!(Decoder::decode("abcXYZ09+~").is_some());
}

#[test]
fn take_past_end_fails() {
    let mut decoder = Decoder::decode("ab").unwrap();
    // twelve bits are present; a 13-bit read must fail without consuming
    assert_eq!(decoder.take(13), None);
    assert_eq!(decoder.take(65), None);
    assert_eq!(decoder.take(12), Some(0b000000_000001));
    assert_eq!(decoder.take(1), None);
}

#[test]
fn skip_then_take_tracks_cursor() {
    let mut encoder = Encoder::new();
    encoder.push(0b1111_0000_1010, 12).unwrap();
    let encoded = encoder.result();
    let mut decoder = Decoder::decode(&encoded).unwrap();
    decoder.skip(8);
    assert_eq!(decoder.take(4), Some(0b1010));
    // skipping past the end stops at the end: nothing is left to read
    let mut decoder = Decoder::decode(&encoded).unwrap();
    decoder.skip(1000);
    assert_eq!(decoder.take(1), None);
    assert_eq!(decoder.take(0), Some(0));
}
