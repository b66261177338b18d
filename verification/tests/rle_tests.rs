use compress_bwt_rs::rle_post;

#[test]
fn test_rle_post_roundtrip() {
    let data = vec![0, 0, 0, 0, 1, 2, 0, 0, 0];
    let encoded = rle_post::encode(&data);
    let decoded = rle_post::decode(&encoded);
    assert_eq!(data, decoded);
}

#[test]
fn test_rle_post_empty() {
    assert_eq!(rle_post::encode(&[]), Vec::<(u8, u16)>::new());
    assert_eq!(rle_post::decode(&[]), Vec::<u8>::new());
}

#[test]
fn test_rle_post_all_zeros() {
    let data = vec![0u8; 1000];
    let encoded = rle_post::encode(&data);
    assert_eq!(encoded.len(), 1); // Single run
    assert_eq!(encoded[0], (0, 1000));
    let decoded = rle_post::decode(&encoded);
    assert_eq!(data, decoded);
}

#[test]
fn test_rle_post_no_runs() {
    let data: Vec<u8> = (1..=10).collect();
    let encoded = rle_post::encode(&data);
    assert_eq!(encoded.len(), 10); // Each byte is its own run
}

#[test]
fn test_rle_post_compact_roundtrip() {
    let data = vec![0, 0, 0, 5, 3, 0, 0, 0, 0, 0];
    let compact = rle_post::encode_compact(&data);
    let decoded = rle_post::decode_compact(&compact).unwrap();
    assert_eq!(data, decoded);
}

#[test]
fn test_rle_post_compact_empty() {
    let compact = rle_post::encode_compact(&[]);
    assert!(compact.is_empty());
    assert_eq!(rle_post::decode_compact(&[]), Some(Vec::<u8>::new()));
}

#[test]
fn test_rle_post_compact_0xff_value() {
    let data = vec![0xFF, 0xFF, 0xFF];
    let compact = rle_post::encode_compact(&data);
    let decoded = rle_post::decode_compact(&compact).unwrap();
    assert_eq!(data, decoded);
}

#[test]
fn test_rle_post_compression_stats() {
    let data = vec![0u8; 100];
    let (pairs, original) = rle_post::compression_stats(&data);
    assert_eq!(original, 100);
    assert_eq!(pairs, 1);
}

#[test]
fn test_rle_post_compact_reduces_size_repetitive() {
    let data = vec![0u8; 100];
    let compact = rle_post::encode_compact(&data);
    assert!(compact.len() < data.len(),
        "compact RLE should reduce size for repetitive data: {} vs {}",
        compact.len(), data.len());
}

// Runs longer than 65535 are split.
#[test]
fn rle_long_run_splits() {
    let data = vec![7u8; 70000];
    let encoded = rle_post::encode(&data);
    assert_eq!(encoded, vec![(7, 65535), (7, 4465)]);
    assert_eq!(rle_post::decode(&encoded), data);
}

#[test]
fn rle_exact_runs() {
    assert_eq!(
        rle_post::encode(&[0, 0, 0, 0, 1, 2, 0, 0, 0]),
        vec![(0, 4), (1, 1), (2, 1), (0, 3)]
    );
    assert_eq!(rle_post::decode(&[(3, 2), (4, 0), (5, 1)]), vec![3, 3, 5]);
}

#[test]
fn compact_exact_bytes() {
    assert_eq!(rle_post::encode_compact(&[0xFF]), vec![0xFF, 0xFF, 1]);
    assert_eq!(rle_post::encode_compact(&[5, 5]), vec![0xFF, 5, 2]);
    assert_eq!(rle_post::encode_compact(&[9]), vec![9]);
    assert_eq!(rle_post::encode_compact(&vec![0u8; 300]), vec![0, 255, 0, 45]);
    assert_eq!(rle_post::encode_compact(&vec![4u8; 256]), vec![0xFF, 4, 255, 0xFF, 4, 1]);
    assert_eq!(rle_post::encode_compact(&vec![0u8; 100]), vec![0, 100]);
}

#[test]
fn compact_decode_errors() {
    assert_eq!(rle_post::decode_compact(&[0]), None);
    assert_eq!(rle_post::decode_compact(&[0xFF, 1]), None);
    assert_eq!(rle_post::decode_compact(&[3, 0xFF]), None);
    assert_eq!(rle_post::decode_compact(&[7]), Some(vec![7]));
    assert_eq!(rle_post::decode_compact(&[0, 2, 0xFF, 9, 3, 4]), Some(vec![0, 0, 9, 9, 9, 4]));
}

#[test]
fn compact_roundtrip_values() {
    let data: Vec<u8> = (0..=255).chain(std::iter::repeat(0).take(600)).chain([0xFF; 300]).collect();
    assert_eq!(rle_post::decode_compact(&rle_post::encode_compact(&data)), Some(data));
}

#[test]
fn stats_and_size() {
    assert_eq!(rle_post::compression_stats(&[1, 1, 2]), (2, 3));
    assert_eq!(rle_post::compact_size(&vec![0u8; 300]), 4);
    assert_eq!(rle_post::compact_size(&[]), 0);
}

// Encoding the bytes of canonical runs gives those runs back.
#[test]
fn rle_canonical_runs_come_back() {
    let pairs = vec![(1u8, 3u16), (2, 1), (1, 65535), (1, 2), (0, 7)];
    assert_eq!(rle_post::encode(&rle_post::decode(&pairs)), pairs);
}
