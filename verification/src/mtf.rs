//! Move-to-front transform for post-BWT entropy coding.

use vstd::prelude::*;
use vstd::set_lib::{lemma_int_range, lemma_map_size, lemma_set_subset_finite, set_int_range};

verus! {

/// The position of the first occurrence of `b` in `list`, if any.
pub open spec fn first_index(list: Seq<u8>, b: u8) -> Option<int>
    decreases list.len(),
{
    if list.len() == 0 {
        None
    } else if list[0] == b {
        Some(0)
    } else {
        match first_index(list.drop_first(), b) {
            Some(i) => Some(i + 1),
            None => None,
        }
    }
}

/// The position at which the encoder looks for `b`: its first occurrence,
/// or 0 when `list` does not hold it.
pub open spec fn find_pos(list: Seq<u8>, b: u8) -> int {
    match first_index(list, b) {
        Some(i) => i,
        None => 0,
    }
}

/// The list after taking out the entry at `pos` and putting `b` in front.
pub open spec fn move_to_front(list: Seq<u8>, pos: int, b: u8) -> Seq<u8> {
    list.remove(pos).insert(0, b)
}

/// The encoder's list after coding `data`, starting from `alphabet`.
pub open spec fn mtf_list(alphabet: Seq<u8>, data: Seq<u8>) -> Seq<u8>
    decreases data.len(),
{
    if data.len() == 0 {
        alphabet
    } else {
        let l = mtf_list(alphabet, data.drop_last());
        move_to_front(l, find_pos(l, data.last()), data.last())
    }
}

/// The move-to-front code of `data` over `alphabet`: each byte becomes
/// its position in the current list (truncated to a byte).
pub open spec fn mtf_encode(alphabet: Seq<u8>, data: Seq<u8>) -> Seq<u8>
    decreases data.len(),
{
    if data.len() == 0 {
        Seq::empty()
    } else {
        mtf_encode(alphabet, data.drop_last()).push(
            find_pos(mtf_list(alphabet, data.drop_last()), data.last()) as u8,
        )
    }
}

/// The decoder's list after decoding `codes`, starting from `alphabet`;
/// a code past the end of the list leaves it as it is.
pub open spec fn mtf_decode_list(alphabet: Seq<u8>, codes: Seq<u8>) -> Seq<u8>
    decreases codes.len(),
{
    if codes.len() == 0 {
        alphabet
    } else {
        let l = mtf_decode_list(alphabet, codes.drop_last());
        let p = codes.last() as int;
        if p < l.len() {
            move_to_front(l, p, l[p])
        } else {
            l
        }
    }
}

/// The move-to-front decoding of `codes` over `alphabet`: each code names a
/// position in the current list; a code past its end decodes to 0.
pub open spec fn mtf_decode(alphabet: Seq<u8>, codes: Seq<u8>) -> Seq<u8>
    decreases codes.len(),
{
    if codes.len() == 0 {
        Seq::empty()
    } else {
        let l = mtf_decode_list(alphabet, codes.drop_last());
        let p = codes.last() as int;
        mtf_decode(alphabet, codes.drop_last()).push(
            if p < l.len() {
                l[p]
            } else {
                0
            },
        )
    }
}

/// The list of all byte values in increasing order.
pub open spec fn byte_list() -> Seq<u8> {
    Seq::new(256, |i: int| i as u8)
}

/// The number of zero bytes in `s`.
pub open spec fn count_zeros(s: Seq<u8>) -> nat
    decreases s.len(),
{
    if s.len() == 0 {
        0
    } else {
        count_zeros(s.drop_last()) + if s.last() == 0 {
            1nat
        } else {
            0nat
        }
    }
}

/// `first_index` finds the first occurrence, if there is one.
pub proof fn lemma_first_index(list: Seq<u8>, b: u8)
    ensures
        match first_index(list, b) {
            Some(i) => 0 <= i < list.len() && list[i] == b && forall|t: int| 0 <= t < i ==> list[t] != b,
            None => forall|t: int| 0 <= t < list.len() ==> list[t] != b,
        },
    decreases list.len(),
{
    if list.len() > 0 {
        lemma_first_index(list.drop_first(), b);
        assert forall|t: int| 1 <= t < list.len() implies list[t] == list.drop_first()[t - 1] by {}
    }
}

proof fn lemma_first_index_at(list: Seq<u8>, b: u8, i: int)
    requires
        0 <= i < list.len(),
        list[i] == b,
        forall|t: int| 0 <= t < i ==> list[t] != b,
    ensures
        first_index(list, b) == Some(i),
{
    lemma_first_index(list, b);
    match first_index(list, b) {
        Some(j) => {
            if j < i {
                assert(list[j] != b);
            } else if j > i {
                assert(list[i] != b);
            }
        },
        None => {
            assert(list[i] != b);
        },
    }
}

fn position_of(list: &Vec<u8>, b: u8) -> (r: Option<usize>)
    ensures
        match r {
            Some(i) => first_index(list@, b) == Some(i as int),
            None => first_index(list@, b) is None,
        },
{
    let mut i: usize = 0;
    while i < list.len()
        invariant
            0 <= i <= list@.len(),
            forall|t: int| 0 <= t < i ==> list@[t] != b,
        decreases list@.len() - i,
    {
        if list[i] == b {
            proof {
                lemma_first_index_at(list@, b, i as int);
            }
            return Some(i);
        }
        i = i + 1;
    }
    proof {
        lemma_first_index(list@, b);
        if let Some(j) = first_index(list@, b) {
            assert(list@[j] != b);
        }
    }
    None
}

fn initial_byte_list() -> (list: Vec<u8>)
    ensures
        list@ == byte_list(),
{
    let mut list: Vec<u8> = Vec::with_capacity(256);
    let mut i: usize = 0;
    while i < 256
        invariant
            0 <= i <= 256,
            list@ == Seq::new(i as nat, |t: int| t as u8),
        decreases 256 - i,
    {
        list.push(i as u8);
        assert(list@ =~= Seq::new((i + 1) as nat, |t: int| t as u8));
        i = i + 1;
    }
    list
}

/// Move-to-front coding of `data` from the starting `list`.
fn encode_from(data: &[u8], list: Vec<u8>) -> (result: Vec<u8>)
    requires
        list@.len() > 0 || data@.len() == 0,
    ensures
        result@ == mtf_encode(list@, data@),
{
    let ghost alphabet = list@;
    let mut list = list;
    let mut result: Vec<u8> = Vec::with_capacity(data.len());
    let mut i: usize = 0;
    while i < data.len()
        invariant
            0 <= i <= data@.len(),
            alphabet.len() > 0 || data@.len() == 0,
            list@.len() == alphabet.len(),
            list@ == mtf_list(alphabet, data@.take(i as int)),
            result@ == mtf_encode(alphabet, data@.take(i as int)),
        decreases data@.len() - i,
    {
        let byte = data[i];
        let pos = match position_of(&list, byte) {
            Some(p) => p,
            None => 0,
        };
        proof {
            lemma_first_index(list@, byte);
            assert(data@.take(i + 1).drop_last() =~= data@.take(i as int));
            assert(data@.take(i + 1).last() == byte);
        }
        result.push(pos as u8);
        list.remove(pos);
        list.insert(0, byte);
        i = i + 1;
    }
    assert(data@.take(data@.len() as int) =~= data@);
    result
}

/// Apply the move-to-front (MTF) transform.
///
/// The MTF maintains a list of byte values (0–255). For each input byte,
/// it outputs the position of that byte in the list, then moves it to the
/// front (position 0). After BWT, this converts clustered bytes into small
/// integers, which compress well with entropy coders.
pub fn encode(data: &[u8]) -> (r: Vec<u8>)
    ensures
        r@ == mtf_encode(byte_list(), data@),
{
    let list = initial_byte_list();
    encode_from(data, list)
}

/// Move-to-front decoding of `data` from the starting `list`.
fn decode_from(data: &[u8], list: Vec<u8>) -> (result: Vec<u8>)
    ensures
        result@ == mtf_decode(list@, data@),
{
    let ghost alphabet = list@;
    let mut list = list;
    let mut result: Vec<u8> = Vec::with_capacity(data.len());
    let mut i: usize = 0;
    while i < data.len()
        invariant
            0 <= i <= data@.len(),
            list@.len() == alphabet.len(),
            list@ == mtf_decode_list(alphabet, data@.take(i as int)),
            result@ == mtf_decode(alphabet, data@.take(i as int)),
        decreases data@.len() - i,
    {
        let pos = data[i] as usize;
        proof {
            assert(data@.take(i + 1).drop_last() =~= data@.take(i as int));
            assert(data@.take(i + 1).last() == data@[i as int]);
        }
        if pos >= list.len() {
            result.push(0);
        } else {
            let byte = list[pos];
            result.push(byte);
            list.remove(pos);
            list.insert(0, byte);
        }
        i = i + 1;
    }
    assert(data@.take(data@.len() as int) =~= data@);
    result
}

/// Apply the inverse move-to-front transform.
///
/// Reconstructs the original bytes from MTF-encoded data.
pub fn decode(data: &[u8]) -> (r: Vec<u8>)
    ensures
        r@ == mtf_decode(byte_list(), data@),
{
    let list = initial_byte_list();
    decode_from(data, list)
}

/// Apply MTF with a custom alphabet (for testing/specialized use).
///
/// The alphabet must contain all byte values present in the input for the
/// code to decode back (see `lemma_mtf_roundtrip`); a byte that it lacks
/// codes as 0 and takes the place of the front entry.
pub fn encode_with_alphabet(data: &[u8], alphabet: &[u8]) -> (r: Vec<u8>)
    requires
        alphabet@.len() > 0 || data@.len() == 0,
    ensures
        r@ == mtf_encode(alphabet@, data@),
{
    let list = vstd::slice::slice_to_vec(alphabet);
    encode_from(data, list)
}

/// Decode MTF with a custom alphabet; a code past the end of the list
/// decodes to 0.
pub fn decode_with_alphabet(data: &[u8], alphabet: &[u8]) -> (r: Vec<u8>)
    ensures
        r@ == mtf_decode(alphabet@, data@),
{
    let list = vstd::slice::slice_to_vec(alphabet);
    decode_from(data, list)
}

/// Compute the zero-run statistics of MTF output.
///
/// Returns `(zero_count, total_count)`. A higher zero ratio indicates
/// better BWT clustering.
pub fn zero_ratio(mtf_data: &[u8]) -> (r: (usize, usize))
    ensures
        r.0 == count_zeros(mtf_data@),
        r.1 == mtf_data@.len(),
{
    let mut zeros: usize = 0;
    let mut i: usize = 0;
    while i < mtf_data.len()
        invariant
            0 <= i <= mtf_data@.len(),
            zeros == count_zeros(mtf_data@.take(i as int)),
            zeros <= i,
        decreases mtf_data@.len() - i,
    {
        proof {
            assert(mtf_data@.take(i + 1).drop_last() =~= mtf_data@.take(i as int));
        }
        if mtf_data[i] == 0 {
            zeros = zeros + 1;
        }
        i = i + 1;
    }
    assert(mtf_data@.take(mtf_data@.len() as int) =~= mtf_data@);
    (zeros, mtf_data.len())
}

/// Every byte of `data` is coded at a position that some entry of the list
/// holds, and that fits in a byte.
pub open spec fn mtf_encodable(alphabet: Seq<u8>, data: Seq<u8>) -> bool
    decreases data.len(),
{
    if data.len() == 0 {
        true
    } else {
        &&& mtf_encodable(alphabet, data.drop_last())
        &&& match first_index(mtf_list(alphabet, data.drop_last()), data.last()) {
            Some(p) => p < 256,
            None => false,
        }
    }
}

proof fn lemma_move_to_front(l: Seq<u8>, p: int, b: u8)
    requires
        0 <= p < l.len(),
    ensures
        move_to_front(l, p, b).len() == l.len(),
        move_to_front(l, p, b)[0] == b,
        forall|t: int| 0 <= t < p ==> #[trigger] move_to_front(l, p, b)[t + 1] == l[t],
        forall|t: int| p < t < l.len() ==> #[trigger] move_to_front(l, p, b)[t] == l[t],
{
    let l2 = move_to_front(l, p, b);
    assert(l2 =~= seq![b] + l.subrange(0, p) + l.subrange(p + 1, l.len() as int));
}

/// Decoding the move-to-front code gives the data back when every
/// byte was found in the list at a position that fits in a byte.
pub proof fn lemma_mtf_roundtrip(alphabet: Seq<u8>, data: Seq<u8>)
    requires
        mtf_encodable(alphabet, data),
    ensures
        mtf_decode(alphabet, mtf_encode(alphabet, data)) == data,
        mtf_decode_list(alphabet, mtf_encode(alphabet, data)) == mtf_list(alphabet, data),
    decreases data.len(),
{
    if data.len() > 0 {
        let d = data.drop_last();
        lemma_mtf_roundtrip(alphabet, d);
        let e = mtf_encode(alphabet, data);
        let l = mtf_list(alphabet, d);
        lemma_first_index(l, data.last());
        let p = find_pos(l, data.last());
        assert(e.drop_last() =~= mtf_encode(alphabet, d));
        assert(e.last() == p as u8);
        assert((p as u8) as int == p);
        assert(data =~= d.push(data.last()));
    } else {
        assert(mtf_encode(alphabet, data) =~= data);
    }
}

/// Coding with a list never loses or gains an entry, while every byte is
/// found in it.
proof fn lemma_mtf_list_keeps_entries(alphabet: Seq<u8>, data: Seq<u8>)
    requires
        forall|i: int| 0 <= i < data.len() ==> alphabet.contains(#[trigger] data[i]),
    ensures
        mtf_list(alphabet, data).len() == alphabet.len(),
        forall|x: u8| #[trigger] mtf_list(alphabet, data).contains(x) == alphabet.contains(x),
    decreases data.len(),
{
    if data.len() > 0 {
        let d = data.drop_last();
        assert forall|i: int| 0 <= i < d.len() implies alphabet.contains(#[trigger] d[i]) by {
            assert(d[i] == data[i]);
        }
        lemma_mtf_list_keeps_entries(alphabet, d);
        let l = mtf_list(alphabet, d);
        let b = data.last();
        assert(alphabet.contains(data[data.len() - 1]));
        assert(l.contains(b));
        lemma_first_index(l, b);
        let p = find_pos(l, b);
        if first_index(l, b) is None {
            let q = choose|q: int| 0 <= q < l.len() && l[q] == b;
            assert(l[q] != b);
        }
        lemma_move_to_front(l, p, b);
        let l2 = move_to_front(l, p, b);
        assert forall|x: u8| #[trigger] l2.contains(x) == l.contains(x) by {
            if l.contains(x) {
                let q = choose|q: int| 0 <= q < l.len() && l[q] == x;
                if q < p {
                    assert(l2[q + 1] == x);
                } else if q == p {
                    assert(l2[0] == x);
                } else {
                    assert(l2[q] == x);
                }
            }
            if l2.contains(x) {
                let q = choose|q: int| 0 <= q < l2.len() && l2[q] == x;
                if q == 0 {
                    assert(l[p] == x);
                } else if q <= p {
                    assert(l2[(q - 1) + 1] == l[q - 1]);
                } else {
                    assert(l2[q] == l[q]);
                }
            }
        }
    }
}

/// Data whose bytes all occur in an alphabet of at most 256 entries can be
/// coded over it.
pub proof fn lemma_mtf_encodable_over(alphabet: Seq<u8>, data: Seq<u8>)
    requires
        alphabet.len() <= 256,
        forall|i: int| 0 <= i < data.len() ==> alphabet.contains(#[trigger] data[i]),
    ensures
        mtf_encodable(alphabet, data),
    decreases data.len(),
{
    if data.len() > 0 {
        let d = data.drop_last();
        assert forall|i: int| 0 <= i < d.len() implies alphabet.contains(#[trigger] d[i]) by {
            assert(d[i] == data[i]);
        }
        lemma_mtf_encodable_over(alphabet, d);
        lemma_mtf_list_keeps_entries(alphabet, d);
        let l = mtf_list(alphabet, d);
        let b = data.last();
        assert(alphabet.contains(data[data.len() - 1]));
        assert(l.contains(b));
        lemma_first_index(l, b);
        if first_index(l, b) is None {
            let q = choose|q: int| 0 <= q < l.len() && l[q] == b;
            assert(l[q] != b);
        }
    }
}

proof fn lemma_byte_list_holds_all(x: u8)
    ensures
        byte_list().contains(x),
{
    assert(byte_list()[x as int] == x);
}

/// Move-to-front decoding undoes encoding over the full byte list.
pub proof fn lemma_mtf_roundtrip_bytes(data: Seq<u8>)
    ensures
        mtf_decode(byte_list(), mtf_encode(byte_list(), data)) == data,
{
    assert forall|i: int| 0 <= i < data.len() implies byte_list().contains(#[trigger] data[i]) by {
        lemma_byte_list_holds_all(data[i]);
    }
    lemma_mtf_encodable_over(byte_list(), data);
    lemma_mtf_roundtrip(byte_list(), data);
}

/// The decoder's list over the full byte list always holds 256 distinct
/// entries.
proof fn lemma_decode_list_distinct(codes: Seq<u8>)
    ensures
        mtf_decode_list(byte_list(), codes).len() == 256,
        mtf_decode_list(byte_list(), codes).no_duplicates(),
    decreases codes.len(),
{
    if codes.len() == 0 {
        assert(byte_list().no_duplicates()) by {
            assert forall|i: int, j: int| 0 <= i < 256 && 0 <= j < 256 && i != j implies byte_list()[i] != byte_list()[j] by {}
        }
    } else {
        lemma_decode_list_distinct(codes.drop_last());
        let l = mtf_decode_list(byte_list(), codes.drop_last());
        let p = codes.last() as int;
        lemma_move_to_front(l, p, l[p]);
        let l2 = move_to_front(l, p, l[p]);
        // Entry q of the new list is entry src(q) of the old one.
        let src = |q: int| if q == 0 { p } else if q <= p { q - 1 } else { q };
        assert forall|q: int| 0 <= q < 256 implies #[trigger] l2[q] == l[src(q)] by {
            if 0 < q <= p {
                assert(l2[(q - 1) + 1] == l[q - 1]);
            }
        }
        assert forall|i: int, j: int| 0 <= i < 256 && 0 <= j < 256 && i != j implies l2[i] != l2[j] by {
            assert(l2[i] == l[src(i)]);
            assert(l2[j] == l[src(j)]);
        }
    }
}

/// Move-to-front encoding undoes decoding over the full byte list: every
/// code decodes, and codes back to itself.
pub proof fn lemma_mtf_encode_decode_bytes(codes: Seq<u8>)
    ensures
        mtf_encode(byte_list(), mtf_decode(byte_list(), codes)) == codes,
        mtf_list(byte_list(), mtf_decode(byte_list(), codes)) == mtf_decode_list(byte_list(), codes),
    decreases codes.len(),
{
    if codes.len() > 0 {
        let c = codes.drop_last();
        lemma_mtf_encode_decode_bytes(c);
        lemma_decode_list_distinct(c);
        let l = mtf_decode_list(byte_list(), c);
        let p = codes.last() as int;
        let d = mtf_decode(byte_list(), codes);
        assert(d.drop_last() =~= mtf_decode(byte_list(), c));
        assert(d.last() == l[p]);
        lemma_first_index_at(l, l[p], p);
        assert(codes =~= c.push(codes.last()));
    } else {
        assert(mtf_decode(byte_list(), codes) =~= codes);
    }
}

/// The encoder's list, starting from the full byte list, always holds each
/// of the 256 byte values exactly once.
pub proof fn lemma_mtf_list_distinct_bytes(data: Seq<u8>)
    ensures
        mtf_list(byte_list(), data).len() == 256,
        mtf_list(byte_list(), data).no_duplicates(),
        forall|x: u8| #[trigger] mtf_list(byte_list(), data).contains(x),
{
    let codes = mtf_encode(byte_list(), data);
    lemma_mtf_roundtrip_bytes(data);
    lemma_mtf_encode_decode_bytes(codes);
    lemma_decode_list_distinct(codes);
    assert forall|i: int| 0 <= i < data.len() implies byte_list().contains(#[trigger] data[i]) by {
        lemma_byte_list_holds_all(data[i]);
    }
    lemma_mtf_list_keeps_entries(byte_list(), data);
    assert forall|x: u8| #[trigger] mtf_list(byte_list(), data).contains(x) by {
        lemma_byte_list_holds_all(x);
    }
}

/// `count_zeros` counts the positions that hold 0.
pub proof fn lemma_count_zeros_positions(s: Seq<u8>)
    ensures
        Set::new(|i: int| 0 <= i < s.len() && s[i] == 0).finite(),
        count_zeros(s) == Set::new(|i: int| 0 <= i < s.len() && s[i] == 0).len(),
    decreases s.len(),
{
    let st = Set::new(|i: int| 0 <= i < s.len() && s[i] == 0);
    lemma_int_range(0, s.len() as int);
    lemma_set_subset_finite(set_int_range(0, s.len() as int), st);
    if s.len() > 0 {
        let q = s.drop_last();
        lemma_count_zeros_positions(q);
        let sq = Set::new(|i: int| 0 <= i < q.len() && q[i] == 0);
        if s.last() == 0 {
            assert(st =~= sq.insert(s.len() - 1));
        } else {
            assert(st =~= sq);
        }
    } else {
        assert(st =~= Set::empty());
    }
}

/// The code of byte `i` is its position in the list left by the bytes
/// before it.
proof fn lemma_mtf_encode_index(alphabet: Seq<u8>, s: Seq<u8>, i: int)
    requires
        0 <= i < s.len(),
    ensures
        mtf_encode(alphabet, s).len() == s.len(),
        mtf_encode(alphabet, s)[i] == find_pos(mtf_list(alphabet, s.take(i)), s[i]) as u8,
    decreases s.len(),
{
    lemma_mtf_encode_len(alphabet, s);
    let d = s.drop_last();
    if i < s.len() - 1 {
        lemma_mtf_encode_index(alphabet, d, i);
        assert(d.take(i) =~= s.take(i));
    } else {
        assert(d =~= s.take(i));
    }
}

proof fn lemma_mtf_encode_len(alphabet: Seq<u8>, s: Seq<u8>)
    ensures
        mtf_encode(alphabet, s).len() == s.len(),
    decreases s.len(),
{
    if s.len() > 0 {
        lemma_mtf_encode_len(alphabet, s.drop_last());
    }
}

/// Between two occurrences of `s[j]`, the list holds in front exactly the
/// distinct bytes coded since, once each, and `s[j]` right after them.
#[verifier::rlimit(40)]
#[verifier::spinoff_prover]
proof fn lemma_mtf_recent_front(alphabet: Seq<u8>, s: Seq<u8>, j: int, k: int) -> (m: int)
    requires
        0 <= j < k <= s.len(),
        forall|q: int| j < q < k ==> s[q] != s[j],
        forall|q: int| 0 <= q < s.len() ==> alphabet.contains(#[trigger] s[q]),
    ensures
        0 <= m < mtf_list(alphabet, s.take(k)).len(),
        mtf_list(alphabet, s.take(k))[m] == s[j],
        forall|q: int| 0 <= q < m ==> mtf_list(alphabet, s.take(k))[q] != s[j],
        mtf_list(alphabet, s.take(k)).take(m).no_duplicates(),
        mtf_list(alphabet, s.take(k)).take(m).to_set() == s.subrange(j + 1, k).to_set(),
    decreases k - j,
{
    let b = s[j];
    let pre = s.take(k - 1);
    assert(s.take(k).drop_last() =~= pre);
    assert(s.take(k).last() == s[k - 1]);
    let l = mtf_list(alphabet, pre);
    let x = s[k - 1];
    let l2 = mtf_list(alphabet, s.take(k));
    assert forall|q: int| 0 <= q < pre.len() implies alphabet.contains(#[trigger] pre[q]) by {
        assert(pre[q] == s[q]);
    }
    lemma_mtf_list_keeps_entries(alphabet, pre);
    assert(alphabet.contains(s[k - 1]));
    assert(l.contains(x));
    lemma_first_index(l, x);
    if first_index(l, x) is None {
        let q = choose|q: int| 0 <= q < l.len() && l[q] == x;
        assert(l[q] != x);
    }
    let p = find_pos(l, x);
    lemma_move_to_front(l, p, x);
    assert(l2 == l.remove(p).insert(0, x));
    if k == j + 1 {
        assert(l2[0] == b);
        assert(l2.take(0) =~= Seq::<u8>::empty());
        assert(s.subrange(j + 1, k) =~= Seq::<u8>::empty());
        assert(l2.take(0).to_set() =~= s.subrange(j + 1, k).to_set());
        0
    } else {
        let m = lemma_mtf_recent_front(alphabet, s, j, k - 1);
        let pf = l.take(m);
        assert(s.subrange(j + 1, k) =~= s.subrange(j + 1, k - 1).push(x));
        s.subrange(j + 1, k - 1).lemma_push_to_set_commute(x);
        assert(x != b);
        if pf.contains(x) {
            let q0 = choose|q0: int| 0 <= q0 < pf.len() && pf[q0] == x;
            assert(l[q0] == x);
            assert(p <= q0);
            assert(p < m);
            let pf2 = l2.take(m);
            assert(l2[m] == b);
            assert forall|q: int| 0 <= q < m implies l2[q] != b by {
                if q == 0 {
                } else if q <= p {
                    assert(l2[q] == l[q - 1]);
                } else {
                    assert(l2[q] == l[q]);
                }
            }
            assert(pf2 =~= seq![x] + pf.remove(p));
            assert(pf2.to_set() =~= pf.to_set()) by {
                assert forall|y: u8| pf2.contains(y) == pf.contains(y) by {
                    if pf.contains(y) {
                        let q = choose|q: int| 0 <= q < pf.len() && pf[q] == y;
                        if q < p {
                            assert(pf2[q + 1] == y);
                        } else if q == p {
                            assert(pf2[0] == y);
                        } else {
                            assert(pf2[q] == y);
                        }
                    }
                    if pf2.contains(y) {
                        let q = choose|q: int| 0 <= q < pf2.len() && pf2[q] == y;
                        if q == 0 {
                            assert(pf[p] == y);
                        } else if q <= p {
                            assert(pf[q - 1] == y);
                        } else {
                            assert(pf[q] == y);
                        }
                    }
                }
            }
            assert(s.subrange(j + 1, k - 1).to_set().insert(x) =~= s.subrange(j + 1, k - 1).to_set());
            assert(pf2.no_duplicates()) by {
                assert forall|q1: int, q2: int| 0 <= q1 < pf2.len() && 0 <= q2 < pf2.len() && q1 != q2 implies pf2[q1] != pf2[q2] by {
                    let src = |q: int| if q == 0 { p } else if q <= p { q - 1 } else { q };
                    assert(pf2[q1] == pf[src(q1)]);
                    assert(pf2[q2] == pf[src(q2)]);
                }
            }
            m
        } else {
            assert(l[m] == b);
            assert(p != m);
            assert(p > m) by {
                if p < m {
                    assert(pf[p] == x);
                    assert(pf.contains(x));
                }
            }
            let pf2 = l2.take(m + 1);
            assert(l2[m + 1] == b);
            assert forall|q: int| 0 <= q < m + 1 implies l2[q] != b by {
                if q > 0 {
                    assert(l2[q] == l[q - 1]);
                }
            }
            assert(pf2 =~= seq![x] + pf);
            assert(pf2.to_set() =~= pf.to_set().insert(x)) by {
                assert forall|y: u8| pf2.contains(y) == (pf.contains(y) || y == x) by {
                    if pf.contains(y) {
                        let q = choose|q: int| 0 <= q < pf.len() && pf[q] == y;
                        assert(pf2[q + 1] == y);
                    }
                    if y == x {
                        assert(pf2[0] == y);
                    }
                    if pf2.contains(y) {
                        let q = choose|q: int| 0 <= q < pf2.len() && pf2[q] == y;
                        if q > 0 {
                            assert(pf[q - 1] == y);
                        }
                    }
                }
            }
            assert(pf2.no_duplicates()) by {
                assert forall|q1: int, q2: int| 0 <= q1 < pf2.len() && 0 <= q2 < pf2.len() && q1 != q2 implies pf2[q1] != pf2[q2] by {
                    if q1 == 0 && q2 > 0 {
                        assert(pf2[q2] == pf[q2 - 1]);
                    } else if q2 == 0 && q1 > 0 {
                        assert(pf2[q1] == pf[q1 - 1]);
                    } else if q1 > 0 && q2 > 0 {
                        assert(pf2[q1] == pf[q1 - 1]);
                        assert(pf2[q2] == pf[q2 - 1]);
                    }
                }
            }
            m + 1
        }
    }
}

/// A byte coded again is coded as the number of distinct bytes coded since
/// its last occurrence (its recency rank), whatever the starting list, as
/// long as the list holds every byte of the data.
pub proof fn lemma_mtf_recency(alphabet: Seq<u8>, s: Seq<u8>, j: int, i: int)
    requires
        0 <= j < i < s.len(),
        s[j] == s[i],
        forall|q: int| j < q < i ==> s[q] != s[i],
        forall|q: int| 0 <= q < s.len() ==> alphabet.contains(#[trigger] s[q]),
    ensures
        mtf_encode(alphabet, s)[i] == s.subrange(j + 1, i).to_set().len() as u8,
{
    let m = lemma_mtf_recent_front(alphabet, s, j, i);
    let l = mtf_list(alphabet, s.take(i));
    lemma_first_index_at(l, s[i], m);
    lemma_mtf_encode_index(alphabet, s, i);
    l.take(m).unique_seq_to_set();
}

/// Over the full byte list, the list holds the distinct bytes coded so far
/// in front, and after them the bytes not yet coded, in increasing order.
#[verifier::rlimit(40)]
#[verifier::spinoff_prover]
proof fn lemma_mtf_fresh_tail(s: Seq<u8>, k: int) -> (m: int)
    requires
        0 <= k <= s.len(),
    ensures
        mtf_list(byte_list(), s.take(k)).len() == 256,
        mtf_list(byte_list(), s.take(k)).no_duplicates(),
        forall|x: u8| #[trigger] mtf_list(byte_list(), s.take(k)).contains(x),
        0 <= m <= 256,
        mtf_list(byte_list(), s.take(k)).take(m).to_set() == s.take(k).to_set(),
        forall|q1: int, q2: int|
            m <= q1 < q2 < 256 ==> #[trigger] mtf_list(byte_list(), s.take(k))[q1] < #[trigger] mtf_list(
                byte_list(),
                s.take(k),
            )[q2],
    decreases k,
{
    lemma_mtf_list_distinct_bytes(s.take(k));
    let l2 = mtf_list(byte_list(), s.take(k));
    if k == 0 {
        assert(s.take(0) =~= Seq::<u8>::empty());
        assert(l2.take(0).to_set() =~= s.take(k).to_set());
        assert forall|q1: int, q2: int| 0 <= q1 < q2 < 256 implies #[trigger] l2[q1] < #[trigger] l2[q2] by {
            assert(l2[q1] == q1 as u8);
            assert(l2[q2] == q2 as u8);
        }
        0
    } else {
        let m = lemma_mtf_fresh_tail(s, k - 1);
        let pre = s.take(k - 1);
        assert(s.take(k).drop_last() =~= pre);
        assert(s.take(k).last() == s[k - 1]);
        assert(s.take(k) =~= pre.push(s[k - 1]));
        pre.lemma_push_to_set_commute(s[k - 1]);
        let l = mtf_list(byte_list(), pre);
        let x = s[k - 1];
        assert(l.contains(x));
        lemma_first_index(l, x);
        if first_index(l, x) is None {
            let q = choose|q: int| 0 <= q < l.len() && l[q] == x;
            assert(l[q] != x);
        }
        let p = find_pos(l, x);
        lemma_move_to_front(l, p, x);
        assert(l2 == move_to_front(l, p, x));
        let pf = l.take(m);
        if p < m {
            assert(pf[p] == x);
            assert(pre.to_set().insert(x) =~= pre.to_set());
            let pf2 = l2.take(m);
            assert(pf2.to_set() =~= pf.to_set()) by {
                assert forall|y: u8| pf2.contains(y) == pf.contains(y) by {
                    if pf.contains(y) {
                        let q = choose|q: int| 0 <= q < pf.len() && pf[q] == y;
                        if q < p {
                            assert(pf2[q + 1] == y);
                        } else if q == p {
                            assert(pf2[0] == y);
                        } else {
                            assert(pf2[q] == y);
                        }
                    }
                    if pf2.contains(y) {
                        let q = choose|q: int| 0 <= q < pf2.len() && pf2[q] == y;
                        if q == 0 {
                            assert(pf[p] == y);
                        } else if q <= p {
                            assert(pf[q - 1] == y);
                        } else {
                            assert(pf[q] == y);
                        }
                    }
                }
            }
            assert forall|q1: int, q2: int| m <= q1 < q2 < 256 implies #[trigger] l2[q1] < #[trigger] l2[q2] by {
                assert(l2[q1] == l[q1]);
                assert(l2[q2] == l[q2]);
            }
            m
        } else {
            assert(!pf.contains(x)) by {
                if pf.contains(x) {
                    let q = choose|q: int| 0 <= q < pf.len() && pf[q] == x;
                    assert(l[q] == x);
                }
            }
            let pf2 = l2.take(m + 1);
            assert(pf2.to_set() =~= pf.to_set().insert(x)) by {
                assert forall|y: u8| pf2.contains(y) == (pf.contains(y) || y == x) by {
                    if pf.contains(y) {
                        let q = choose|q: int| 0 <= q < pf.len() && pf[q] == y;
                        assert(pf2[q + 1] == y);
                    }
                    if y == x {
                        assert(pf2[0] == y);
                    }
                    if pf2.contains(y) {
                        let q = choose|q: int| 0 <= q < pf2.len() && pf2[q] == y;
                        if q > 0 {
                            assert(pf[q - 1] == y);
                        }
                    }
                }
            }
            assert forall|q1: int, q2: int| m + 1 <= q1 < q2 < 256 implies #[trigger] l2[q1] < #[trigger] l2[q2] by {
                let a1 = if q1 <= p { q1 - 1 } else { q1 };
                let a2 = if q2 <= p { q2 - 1 } else { q2 };
                assert(l2[q1] == l[a1]);
                assert(l2[q2] == l[a2]);
                assert(m <= a1 < a2 < 256);
            }
            m + 1
        }
    }
}

/// Over the full byte list, a byte coded for the first time is coded as
/// the number of distinct bytes coded before it plus the number of smaller
/// bytes not coded yet.
#[verifier::rlimit(40)]
#[verifier::spinoff_prover]
pub proof fn lemma_mtf_first_occurrence(s: Seq<u8>, i: int)
    requires
        0 <= i < s.len(),
        !s.take(i).contains(s[i]),
    ensures
        mtf_encode(byte_list(), s)[i] == (s.take(i).to_set().len() + Set::new(
            |y: u8| y < s[i] && !s.take(i).contains(y),
        ).len()) as u8,
{
    let b = s[i];
    let m = lemma_mtf_fresh_tail(s, i);
    let l = mtf_list(byte_list(), s.take(i));
    let seen = s.take(i).to_set();
    let pf = l.take(m);
    let u = l.skip(m);
    assert(l.contains(b));
    let r = choose|r: int| 0 <= r < l.len() && l[r] == b;
    assert(r >= m) by {
        if r < m {
            assert(pf[r] == b);
            assert(pf.to_set().contains(b));
        }
    }
    assert forall|q: int| 0 <= q < r implies l[q] != b by {}
    lemma_first_index_at(l, b, r);
    lemma_mtf_encode_index(byte_list(), s, i);
    // The distinct bytes coded so far fill the front.
    assert(pf.no_duplicates()) by {
        assert forall|q1: int, q2: int| 0 <= q1 < pf.len() && 0 <= q2 < pf.len() && q1 != q2 implies pf[q1] != pf[q2] by {
            assert(pf[q1] == l[q1] && pf[q2] == l[q2]);
        }
    }
    pf.unique_seq_to_set();
    // Before b in the tail stand exactly the smaller bytes not coded yet.
    let below = u.take(r - m);
    let smaller = Set::new(|y: u8| y < b && !s.take(i).contains(y));
    assert(below.no_duplicates()) by {
        assert forall|q1: int, q2: int| 0 <= q1 < below.len() && 0 <= q2 < below.len() && q1 != q2 implies below[q1] != below[q2] by {
            assert(below[q1] == l[q1 + m] && below[q2] == l[q2 + m]);
        }
    }
    below.unique_seq_to_set();
    assert(below.to_set() =~= smaller) by {
        assert forall|y: u8| below.contains(y) == smaller.contains(y) by {
            if below.contains(y) {
                let q = choose|q: int| 0 <= q < below.len() && below[q] == y;
                assert(l[q + m] == y);
                assert(l[q + m] < l[r]);
                if s.take(i).contains(y) {
                    assert(seen.contains(y));
                    assert(pf.to_set().contains(y));
                    let q2 = choose|q2: int| 0 <= q2 < pf.len() && pf[q2] == y;
                    assert(l[q2] == y);
                }
            }
            if smaller.contains(y) {
                assert(l.contains(y));
                let q = choose|q: int| 0 <= q < l.len() && l[q] == y;
                if q < m {
                    assert(pf[q] == y);
                    assert(pf.to_set().contains(y));
                    assert(seen.contains(y));
                }
                if q >= r {
                    if q > r {
                        assert(l[r] < l[q]);
                    }
                }
                assert(below[q - m] == y);
            }
        }
    }
}

/// From a list without repeats that holds every byte of the data, the
/// list holds the distinct bytes coded so far in front, and after them the
/// rest of the list in its starting order.
#[verifier::rlimit(40)]
#[verifier::spinoff_prover]
proof fn lemma_mtf_fresh_tail_over(alphabet: Seq<u8>, s: Seq<u8>, k: int) -> (m: int)
    requires
        alphabet.no_duplicates(),
        forall|q: int| 0 <= q < s.len() ==> alphabet.contains(#[trigger] s[q]),
        0 <= k <= s.len(),
    ensures
        mtf_list(alphabet, s.take(k)).len() == alphabet.len(),
        mtf_list(alphabet, s.take(k)).no_duplicates(),
        forall|y: u8| #[trigger] mtf_list(alphabet, s.take(k)).contains(y) == alphabet.contains(y),
        0 <= m <= alphabet.len(),
        mtf_list(alphabet, s.take(k)).take(m).to_set() == s.take(k).to_set(),
        forall|q1: int, q2: int|
            m <= q1 < q2 < alphabet.len() ==> find_pos(alphabet, #[trigger] mtf_list(alphabet, s.take(k))[q1])
                < find_pos(alphabet, #[trigger] mtf_list(alphabet, s.take(k))[q2]),
    decreases k,
{
    let l2 = mtf_list(alphabet, s.take(k));
    if k == 0 {
        assert(s.take(0) =~= Seq::<u8>::empty());
        assert(l2 == alphabet);
        assert(l2.take(0).to_set() =~= s.take(k).to_set());
        assert forall|q1: int, q2: int| 0 <= q1 < q2 < alphabet.len() implies find_pos(alphabet, #[trigger] l2[q1])
            < find_pos(alphabet, #[trigger] l2[q2]) by {
            lemma_first_index_at(alphabet, alphabet[q1], q1);
            lemma_first_index_at(alphabet, alphabet[q2], q2);
        }
        0
    } else {
        let m = lemma_mtf_fresh_tail_over(alphabet, s, k - 1);
        let pre = s.take(k - 1);
        assert(s.take(k).drop_last() =~= pre);
        assert(s.take(k).last() == s[k - 1]);
        assert(s.take(k) =~= pre.push(s[k - 1]));
        pre.lemma_push_to_set_commute(s[k - 1]);
        let l = mtf_list(alphabet, pre);
        let x = s[k - 1];
        assert(alphabet.contains(x));
        assert(l.contains(x));
        lemma_first_index(l, x);
        if first_index(l, x) is None {
            let q = choose|q: int| 0 <= q < l.len() && l[q] == x;
            assert(l[q] != x);
        }
        let p = find_pos(l, x);
        lemma_move_to_front(l, p, x);
        assert(l2 == move_to_front(l, p, x));
        let src = |q: int| if q == 0 { p } else if q <= p { q - 1 } else { q };
        assert forall|q: int| 0 <= q < l2.len() implies #[trigger] l2[q] == l[src(q)] by {
            if 0 < q <= p {
                assert(l2[(q - 1) + 1] == l[q - 1]);
            }
        }
        assert(l2.no_duplicates()) by {
            assert forall|q1: int, q2: int| 0 <= q1 < l2.len() && 0 <= q2 < l2.len() && q1 != q2 implies l2[q1] != l2[q2] by {
                assert(l2[q1] == l[src(q1)]);
                assert(l2[q2] == l[src(q2)]);
            }
        }
        assert forall|y: u8| #[trigger] l2.contains(y) == alphabet.contains(y) by {
            if l.contains(y) {
                let q = choose|q: int| 0 <= q < l.len() && l[q] == y;
                if q < p {
                    assert(l2[q + 1] == y);
                } else if q == p {
                    assert(l2[0] == y);
                } else {
                    assert(l2[q] == y);
                }
            }
            if l2.contains(y) {
                let q = choose|q: int| 0 <= q < l2.len() && l2[q] == y;
                assert(l[src(q)] == y);
            }
        }
        let pf = l.take(m);
        if p < m {
            assert(pf[p] == x);
            assert(pre.to_set().insert(x) =~= pre.to_set());
            let pf2 = l2.take(m);
            assert(pf2.to_set() =~= pf.to_set()) by {
                assert forall|y: u8| pf2.contains(y) == pf.contains(y) by {
                    if pf.contains(y) {
                        let q = choose|q: int| 0 <= q < pf.len() && pf[q] == y;
                        if q < p {
                            assert(pf2[q + 1] == y);
                        } else if q == p {
                            assert(pf2[0] == y);
                        } else {
                            assert(pf2[q] == y);
                        }
                    }
                    if pf2.contains(y) {
                        let q = choose|q: int| 0 <= q < pf2.len() && pf2[q] == y;
                        assert(pf[src(q)] == y);
                    }
                }
            }
            assert forall|q1: int, q2: int| m <= q1 < q2 < alphabet.len() implies find_pos(alphabet, #[trigger] l2[q1])
                < find_pos(alphabet, #[trigger] l2[q2]) by {
                assert(l2[q1] == l[q1]);
                assert(l2[q2] == l[q2]);
            }
            m
        } else {
            assert(!pf.contains(x)) by {
                if pf.contains(x) {
                    let q = choose|q: int| 0 <= q < pf.len() && pf[q] == x;
                    assert(l[q] == x);
                    assert(l.no_duplicates());
                }
            }
            let pf2 = l2.take(m + 1);
            assert(pf2.to_set() =~= pf.to_set().insert(x)) by {
                assert forall|y: u8| pf2.contains(y) == (pf.contains(y) || y == x) by {
                    if pf.contains(y) {
                        let q = choose|q: int| 0 <= q < pf.len() && pf[q] == y;
                        assert(pf2[q + 1] == y);
                    }
                    if y == x {
                        assert(pf2[0] == y);
                    }
                    if pf2.contains(y) {
                        let q = choose|q: int| 0 <= q < pf2.len() && pf2[q] == y;
                        if q > 0 {
                            assert(pf[q - 1] == y);
                        }
                    }
                }
            }
            assert forall|q1: int, q2: int| m + 1 <= q1 < q2 < alphabet.len() implies find_pos(alphabet, #[trigger] l2[q1])
                < find_pos(alphabet, #[trigger] l2[q2]) by {
                assert(l2[q1] == l[src(q1)]);
                assert(l2[q2] == l[src(q2)]);
                assert(m <= src(q1) < src(q2) < alphabet.len());
            }
            m + 1
        }
    }
}

/// From a list without repeats that holds every byte of the data, a byte
/// coded for the first time is coded as the number of distinct bytes coded
/// before it plus the number of entries ahead of it in the starting list
/// that are not coded yet.
#[verifier::rlimit(40)]
#[verifier::spinoff_prover]
pub proof fn lemma_mtf_first_occurrence_over(alphabet: Seq<u8>, s: Seq<u8>, i: int, pb: int)
    requires
        alphabet.no_duplicates(),
        forall|q: int| 0 <= q < s.len() ==> alphabet.contains(#[trigger] s[q]),
        0 <= i < s.len(),
        !s.take(i).contains(s[i]),
        0 <= pb < alphabet.len(),
        alphabet[pb] == s[i],
    ensures
        Set::new(|q: int| 0 <= q < pb && !s.take(i).contains(alphabet[q])).finite(),
        mtf_encode(alphabet, s)[i] == (s.take(i).to_set().len() + Set::new(
            |q: int| 0 <= q < pb && !s.take(i).contains(alphabet[q]),
        ).len()) as u8,
{
    let b = s[i];
    let m = lemma_mtf_fresh_tail_over(alphabet, s, i);
    let l = mtf_list(alphabet, s.take(i));
    let n = alphabet.len() as int;
    let seen = s.take(i).to_set();
    let pf = l.take(m);
    lemma_first_index_at(alphabet, b, pb);
    assert(l.contains(b));
    let r = choose|r: int| 0 <= r < l.len() && l[r] == b;
    assert(r >= m) by {
        if r < m {
            assert(pf[r] == b);
            assert(pf.to_set().contains(b));
        }
    }
    assert forall|q: int| 0 <= q < r implies l[q] != b by {}
    lemma_first_index_at(l, b, r);
    lemma_mtf_encode_index(alphabet, s, i);
    assert(pf.no_duplicates()) by {
        assert forall|q1: int, q2: int| 0 <= q1 < pf.len() && 0 <= q2 < pf.len() && q1 != q2 implies pf[q1] != pf[q2] by {
            assert(pf[q1] == l[q1] && pf[q2] == l[q2]);
        }
    }
    pf.unique_seq_to_set();
    let below = l.subrange(m, r);
    assert(below.no_duplicates()) by {
        assert forall|q1: int, q2: int| 0 <= q1 < below.len() && 0 <= q2 < below.len() && q1 != q2 implies below[q1] != below[q2] by {
            assert(below[q1] == l[q1 + m] && below[q2] == l[q2 + m]);
        }
    }
    below.unique_seq_to_set();
    // The positions ahead of b not coded yet hold exactly the bytes before
    // b in the tail.
    let ahead = Set::new(|q: int| 0 <= q < pb && !s.take(i).contains(alphabet[q]));
    let f = |q: int| alphabet[q];
    lemma_int_range(0, n);
    lemma_set_subset_finite(set_int_range(0, n), ahead);
    assert(vstd::relations::injective_on(f, ahead));
    assert(ahead.map(f) =~= below.to_set()) by {
        assert forall|y: u8| ahead.map(f).contains(y) implies below.contains(y) by {
            let q = choose|q: int| ahead.contains(q) && f(q) == y;
            assert(alphabet.contains(y));
            assert(l.contains(y));
            let q2 = choose|q2: int| 0 <= q2 < l.len() && l[q2] == y;
            if q2 < m {
                assert(pf[q2] == y);
                assert(pf.to_set().contains(y));
            }
            lemma_first_index_at(alphabet, y, q);
            if q2 > r {
                assert(find_pos(alphabet, l[r]) < find_pos(alphabet, l[q2]));
            }
            assert(q2 != r);
            assert(below[q2 - m] == y);
        }
        assert forall|y: u8| below.contains(y) implies ahead.map(f).contains(y) by {
            let q = choose|q: int| 0 <= q < below.len() && below[q] == y;
            assert(l[q + m] == y);
            assert(find_pos(alphabet, l[q + m]) < find_pos(alphabet, l[r]));
            assert(l.contains(y));
            assert(alphabet.contains(y));
            lemma_first_index(alphabet, y);
            let qa = find_pos(alphabet, y);
            assert(alphabet[qa] == y);
            if s.take(i).contains(y) {
                assert(seen.contains(y));
                assert(pf.to_set().contains(y));
                let q2 = choose|q2: int| 0 <= q2 < pf.len() && pf[q2] == y;
                assert(l[q2] == y);
            }
            assert(ahead.contains(qa));
        }
    }
    lemma_map_size(ahead, below.to_set(), f);
}

} // verus!
