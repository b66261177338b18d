use compress_bwt_rs::{bwt_forward, mtf};

#[test]
fn test_mtf_roundtrip() {
    let data = b"banana";
    let encoded = mtf::encode(data);
    let decoded = mtf::decode(&encoded);
    assert_eq!(data.as_slice(), decoded.as_slice());
}

#[test]
fn test_mtf_empty() {
    assert_eq!(mtf::encode(b""), Vec::<u8>::new());
    assert_eq!(mtf::decode(&[]), Vec::<u8>::new());
}

#[test]
fn test_mtf_single() {
    let encoded = mtf::encode(b"a");
    assert_eq!(encoded, vec![b'a']); // 'a' is at position 'a'=97
    let decoded = mtf::decode(&encoded);
    assert_eq!(decoded, b"a");
}

#[test]
fn test_mtf_repeated_byte() {
    // First occurrence at position 97, subsequent at position 0
    let encoded = mtf::encode(b"aaa");
    assert_eq!(encoded[0], b'a'); // first 'a' at its initial position
    assert_eq!(encoded[1], 0); // second 'a' moved to front
    assert_eq!(encoded[2], 0); // third 'a' still at front
}

#[test]
fn test_mtf_roundtrip_binary() {
    let data: Vec<u8> = (0..=255).collect();
    let encoded = mtf::encode(&data);
    let decoded = mtf::decode(&encoded);
    assert_eq!(data, decoded);
}

#[test]
fn test_mtf_custom_alphabet() {
    let alphabet = b"abc";
    let data = b"aabbc";
    let encoded = mtf::encode_with_alphabet(data, alphabet);
    let decoded = mtf::decode_with_alphabet(&encoded, alphabet);
    assert_eq!(data.as_slice(), decoded.as_slice());
}

#[test]
fn test_mtf_zero_ratio() {
    // All same byte → BWT → MTF should give mostly zeros
    let data = b"aaaaaa";
    let bwt_result = bwt_forward::transform(data);
    let bwt = &bwt_result.0;
    let mtf_data = mtf::encode(bwt);
    let (zeros, total) = mtf::zero_ratio(&mtf_data);
    assert!(zeros > 0, "expected some zeros in MTF of repeated data");
    assert_eq!(total, data.len());
}

#[test]
fn mtf_encode_exact_banana() {
    assert_eq!(mtf::encode(b"banana"), vec![98, 98, 110, 1, 1, 1]);
}

#[test]
fn mtf_custom_alphabet_exact() {
    assert_eq!(mtf::encode_with_alphabet(b"aabbc", b"abc"), vec![0, 0, 1, 0, 2]);
    assert_eq!(mtf::encode_with_alphabet(b"", b""), Vec::<u8>::new());
}

// A byte missing from the alphabet codes as 0 and replaces the front entry,
// so it does not decode back.
#[test]
fn mtf_missing_byte_does_not_roundtrip() {
    let encoded = mtf::encode_with_alphabet(b"c", b"ab");
    assert_eq!(encoded, vec![0]);
    assert_eq!(mtf::decode_with_alphabet(&encoded, b"ab"), b"a".to_vec());
}

// A code past the end of the list decodes to 0 and leaves the list alone.
#[test]
fn mtf_decode_out_of_range_code() {
    assert_eq!(mtf::decode_with_alphabet(&[5, 1, 0], b"xy"), vec![0, b'y', b'y']);
    assert_eq!(mtf::decode_with_alphabet(&[0, 3], b""), vec![0, 0]);
}

// Encoding undoes decoding over the full byte list.
#[test]
fn mtf_encode_after_decode() {
    let codes: Vec<u8> = vec![255, 0, 7, 7, 1, 200, 0];
    assert_eq!(mtf::encode(&mtf::decode(&codes)), codes);
}

#[test]
fn mtf_zero_ratio_exact() {
    assert_eq!(mtf::zero_ratio(&[0, 1, 0, 2]), (2, 4));
    assert_eq!(mtf::zero_ratio(&[]), (0, 0));
}

// The list always holds every byte value once: coding the bytes from 255
// down finds each one at the back.
#[test]
fn mtf_list_holds_every_byte_once() {
    let data: Vec<u8> = (0..=255u8).rev().collect();
    assert_eq!(mtf::encode(&data), vec![255u8; 256]);
    assert_eq!(mtf::decode(&vec![255u8; 256]), data);
}
