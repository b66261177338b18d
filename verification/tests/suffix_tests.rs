use compress_bwt_rs::suffix;

#[test]
fn suffix_test_suffix_array_banana() {
    let sa = suffix::build_suffix_array(b"banana");
    // Sorted: 5(a), 3(ana), 1(anana), 0(banana), 4(na), 2(nana)
    assert_eq!(sa, vec![5, 3, 1, 0, 4, 2]);
}

#[test]
fn suffix_test_suffix_array_empty() {
    assert_eq!(suffix::build_suffix_array(b""), Vec::<usize>::new());
}

#[test]
fn suffix_test_suffix_array_single() {
    assert_eq!(suffix::build_suffix_array(b"a"), vec![0]);
}

#[test]
fn suffix_test_suffix_array_sorted() {
    let sa = suffix::build_suffix_array(b"abcd");
    assert_eq!(sa, vec![0, 1, 2, 3]);
}

#[test]
fn tests_test_suffix_array_banana() {
    let sa = suffix::build_suffix_array(b"banana");
    assert_eq!(sa, vec![5, 3, 1, 0, 4, 2]);
}

#[test]
fn tests_test_suffix_array_empty() {
    assert_eq!(suffix::build_suffix_array(b""), Vec::<usize>::new());
}

#[test]
fn tests_test_suffix_array_single() {
    assert_eq!(suffix::build_suffix_array(b"x"), vec![0]);
}

#[test]
fn tests_test_suffix_array_sorted() {
    let sa = suffix::build_suffix_array(b"abcd");
    assert_eq!(sa, vec![0, 1, 2, 3]);
}

#[test]
fn test_suffix_array_reverse_sorted() {
    let sa = suffix::build_suffix_array(b"dcba");
    assert_eq!(sa, vec![3, 2, 1, 0]);
}

#[test]
fn test_suffix_array_all_same() {
    let sa = suffix::build_suffix_array(b"aaa");
    // All suffixes are equal, order doesn't matter much
    assert_eq!(sa.len(), 3);
}

// A suffix that starts a longer one sorts first.
#[test]
fn suffix_array_all_same_exact() {
    assert_eq!(suffix::build_suffix_array(b"aaa"), vec![2, 1, 0]);
}

#[test]
fn suffix_array_mississippi() {
    assert_eq!(
        suffix::build_suffix_array(b"mississippi"),
        vec![10, 7, 4, 1, 0, 9, 8, 6, 3, 5, 2]
    );
}

#[test]
fn suffix_array_with_sentinel_matches() {
    assert_eq!(
        suffix::build_suffix_array_with_sentinel(b"banana"),
        suffix::build_suffix_array(b"banana")
    );
}

#[test]
fn suffix_array_all_bytes_reversed() {
    let data: Vec<u8> = (0..=255u8).rev().collect();
    let expected: Vec<usize> = (0..256).rev().collect();
    assert_eq!(suffix::build_suffix_array(&data), expected);
}

#[test]
fn bwt_from_suffix_array_reads_rows() {
    let data = b"banana";
    let sa = suffix::build_suffix_array(data);
    assert_eq!(suffix::bwt_from_suffix_array(data, &sa), (b"nnbaaa".to_vec(), 3));
}

// With several rows of the whole text, the last one is the primary index.
#[test]
fn bwt_from_suffix_array_last_zero_row() {
    assert_eq!(
        suffix::bwt_from_suffix_array(b"ab", &[0, 1, 0]),
        (b"bab".to_vec(), 2)
    );
    assert_eq!(suffix::bwt_from_suffix_array(b"ab", &[2, 1]), (b"ba".to_vec(), 0));
    assert_eq!(suffix::bwt_from_suffix_array(b"", &[]), (Vec::new(), 0));
}
