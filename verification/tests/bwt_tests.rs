use compress_bwt_rs::{bwt_forward, bwt_inverse, mtf, rle_post, rotation};

/// Helper: full BWT round-trip.
fn bwt_roundtrip(data: &[u8]) -> Vec<u8> {
    let (bwt, idx) = bwt_forward::transform(data);
    bwt_inverse::inverse(&bwt, idx).unwrap()
}

#[test]
fn test_bwt_banana() {
    let (bwt, _idx) = bwt_forward::transform(b"banana");
    assert_eq!(bwt.len(), 6);
}

#[test]
fn test_bwt_empty() {
    let (bwt, idx) = bwt_forward::transform(b"");
    assert!(bwt.is_empty());
    assert_eq!(idx, 0);
}

#[test]
fn test_bwt_single() {
    let (bwt, idx) = bwt_forward::transform(b"x");
    assert_eq!(bwt, b"x");
    assert_eq!(idx, 0);
}

#[test]
fn test_bwt_all_same() {
    let (bwt, idx) = bwt_forward::transform(b"aaaa");
    assert_eq!(bwt, b"aaaa"); // all rotations are the same
    // Primary index is valid
    let recovered = bwt_inverse::inverse(&bwt, idx).unwrap();
    assert_eq!(recovered, b"aaaa");
}

#[test]
fn test_bwt_naive_matches() {
    let data = b"banana";
    let (bwt1, idx1) = bwt_forward::transform(data);
    let (bwt2, idx2) = bwt_forward::transform_naive(data);
    assert_eq!(bwt1, bwt2);
    assert_eq!(idx1, idx2);
}

#[test]
fn test_bwt_naive_matches_abracadabra() {
    let data = b"abracadabra";
    let (bwt1, idx1) = bwt_forward::transform(data);
    let (bwt2, idx2) = bwt_forward::transform_naive(data);
    assert_eq!(bwt1, bwt2);
    assert_eq!(idx1, idx2);
}

#[test]
fn test_bwt_roundtrip_banana() {
    assert_eq!(b"banana".as_slice(), bwt_roundtrip(b"banana").as_slice());
}

#[test]
fn test_bwt_roundtrip_empty() {
    assert_eq!(Vec::<u8>::new(), bwt_roundtrip(b""));
}

#[test]
fn test_bwt_roundtrip_single() {
    assert_eq!(b"x".as_slice(), bwt_roundtrip(b"x").as_slice());
}

#[test]
fn test_bwt_roundtrip_abracadabra() {
    assert_eq!(b"abracadabra".as_slice(), bwt_roundtrip(b"abracadabra").as_slice());
}

#[test]
fn test_bwt_roundtrip_text() {
    let data = b"the quick brown fox jumps over the lazy dog";
    assert_eq!(data.as_slice(), bwt_roundtrip(data).as_slice());
}

#[test]
fn test_bwt_roundtrip_binary() {
    let data: Vec<u8> = (0..=255).collect();
    assert_eq!(data.as_slice(), bwt_roundtrip(&data).as_slice());
}

#[test]
fn test_bwt_roundtrip_repetitive() {
    let data = b"aaaaaaabbbbccd";
    assert_eq!(data.as_slice(), bwt_roundtrip(data).as_slice());
}

#[test]
fn test_bwt_invalid_primary_index() {
    let (bwt, _) = bwt_forward::transform(b"test");
    assert!(bwt_inverse::inverse(&bwt, 999).is_none());
}

#[test]
fn test_bwt_verify_roundtrip() {
    assert!(bwt_inverse::verify_roundtrip(b"hello world").is_ok());
}

#[test]
fn test_bwt_clustering_improves_mtf() {
    // Repetitive data: BWT should cluster, MTF should produce more zeros
    let data = b"abababababababababab";
    let bwt_result = bwt_forward::transform(data);
    let bwt = &bwt_result.0;

    // MTF of original data
    let mtf_original = mtf::encode(data);
    let (_zeros_orig, _) = mtf::zero_ratio(&mtf_original);

    // MTF of BWT data
    let mtf_bwt = mtf::encode(bwt);
    let (zeros_bwt, _) = mtf::zero_ratio(&mtf_bwt);

    // BWT+MTF should have at least as many zeros as direct MTF
    // (usually more, but depends on input)
    assert!(zeros_bwt > 0, "BWT+MTF should produce some zeros");
}

#[test]
fn test_full_pipeline_roundtrip() {
    // BWT → MTF → RLE → decode RLE → decode MTF → inverse BWT
    let data = b"mississippi";

    // Forward
    let (bwt, idx) = bwt_forward::transform(data);
    let mtf_data = mtf::encode(&bwt);
    let rle_data = rle_post::encode_compact(&mtf_data);

    // Inverse
    let mtf_decoded = rle_post::decode_compact(&rle_data).unwrap();
    let bwt_decoded = mtf::decode(&mtf_decoded);
    let original = bwt_inverse::inverse(&bwt_decoded, idx).unwrap();

    assert_eq!(data.as_slice(), original.as_slice());
}

#[test]
fn transform_exact_banana() {
    assert_eq!(bwt_forward::transform(b"banana"), (b"nnbaaa".to_vec(), 3));
}

#[test]
fn transform_exact_mississippi() {
    assert_eq!(bwt_forward::transform(b"mississippi"), (b"pssmipissii".to_vec(), 4));
}

#[test]
fn transform_struct_matches_transform() {
    let r = bwt_forward::transform_struct(b"banana");
    assert_eq!(r.bwt, b"nnbaaa".to_vec());
    assert_eq!(r.primary_index, 3);
    let e = bwt_forward::transform_struct(b"");
    assert!(e.bwt.is_empty());
    assert_eq!(e.primary_index, 0);
}

// Equal rotations keep the order of their starts, so on periodic input
// the text itself sits at the first of its equal rows.
#[test]
fn transform_naive_periodic() {
    assert_eq!(bwt_forward::transform_naive(b"abab"), (b"bbaa".to_vec(), 0));
    assert_eq!(bwt_forward::transform(b"abab"), (b"bbaa".to_vec(), 0));
    assert_eq!(bwt_forward::transform(b"abcabcabc"), (b"cccaaabbb".to_vec(), 0));
    assert_eq!(bwt_forward::transform_naive(b""), (Vec::new(), 0));
}

// A pair that is the BWT of no text is refused.
#[test]
fn inverse_refuses_non_bwt() {
    assert_eq!(bwt_inverse::inverse(b"bab", 2), None);
    assert_eq!(bwt_inverse::inverse(b"abc", 0), None);
    assert_eq!(bwt_inverse::inverse(b"abc", 1), None);
    assert_eq!(bwt_inverse::verify_roundtrip(b"abc"), Ok(()));
}

// Any row that holds the text is accepted as the primary index; other rows
// decode to the rotation they hold.
#[test]
fn inverse_periodic_rows() {
    assert_eq!(bwt_inverse::inverse(b"bbaa", 0), Some(b"abab".to_vec()));
    assert_eq!(bwt_inverse::inverse(b"bbaa", 1), Some(b"abab".to_vec()));
    assert_eq!(bwt_inverse::inverse(b"bbaa", 2), Some(b"baba".to_vec()));
    assert_eq!(bwt_inverse::inverse(b"nnbaaa", 0), Some(b"abanan".to_vec()));
}

#[test]
fn inverse_edge_cases() {
    assert_eq!(bwt_inverse::inverse(b"", 0), Some(Vec::new()));
    assert_eq!(bwt_inverse::inverse(b"", 7), Some(Vec::new()));
    assert_eq!(bwt_inverse::inverse(b"abc", 3), None);
    assert_eq!(bwt_inverse::inverse(b"nnbaaa", 3), Some(b"banana".to_vec()));
}

// The rotations of "bab" sort as "abb", "bab", "bba": the text is row 1.
#[test]
fn roundtrip_on_bab() {
    let (bwt, idx) = bwt_forward::transform(b"bab");
    assert_eq!((bwt.clone(), idx), (b"bba".to_vec(), 1));
    assert_eq!(bwt_inverse::inverse(&bwt, idx), Some(b"bab".to_vec()));
    assert_eq!(bwt_inverse::verify_roundtrip(b"bab"), Ok(()));
}

#[test]
fn verify_roundtrip_laws_on_values() {
    for data in [&b"banana"[..], b"mississippi", b"", b"z", b"abracadabra", b"aaaa", b"abab", b"abcabcabc"] {
        assert_eq!(bwt_inverse::verify_roundtrip(data), Ok(()));
    }
}

// Periodic input comes back too.
#[test]
fn roundtrip_on_repeated_block() {
    let data = [1u8, 0, 0, 1, 0, 0];
    assert_eq!(bwt_forward::transform(&data), (vec![1u8, 1, 0, 0, 0, 0], 4));
    assert_eq!(bwt_inverse::verify_roundtrip(&data), Ok(()));
    assert_eq!(bwt_roundtrip(b"abababab"), b"abababab".to_vec());
}

// The BWT holds the same bytes as its input.
#[test]
fn transform_rearranges_bytes() {
    let data = b"the quick brown fox jumps over the lazy dog";
    let (bwt, idx) = bwt_forward::transform(data);
    let mut a = bwt.clone();
    let mut b = data.to_vec();
    a.sort();
    b.sort();
    assert_eq!(a, b);
    assert!(idx < data.len());
}

// The naive rotation sort gives the same result on every input.
#[test]
fn naive_matches_transform() {
    for data in [&b"banana"[..], b"mississippi", b"x", b"the quick brown fox", b"bab", b"abab", b"aaaa", b"", b"abracadabra"] {
        assert_eq!(bwt_forward::transform_naive(data), bwt_forward::transform(data));
    }
}

#[test]
fn transform_exact_abracadabra() {
    assert_eq!(bwt_forward::transform(b"abracadabra"), (b"rdarcaaaabb".to_vec(), 2));
}

#[test]
fn sort_rotations_orders_rows() {
    assert_eq!(rotation::sort_rotations(b"banana"), vec![5, 3, 1, 0, 4, 2]);
    assert_eq!(rotation::sort_rotations(b"abab"), vec![0, 2, 1, 3]);
    assert_eq!(rotation::sort_rotations(b"bab"), vec![1, 0, 2]);
    assert_eq!(rotation::sort_rotations(b""), Vec::<usize>::new());
}
