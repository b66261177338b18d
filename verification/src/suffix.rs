//! Suffix array construction for the BWT, and reading the BWT off a
//! suffix array.

use vstd::prelude::*;
use crate::ranks::{dense_ranks, lemma_byte_ranks, lemma_dense_ranks, lemma_pair_ranks, ranks_match};
use crate::sort::{
    key_eq, key_le, key_lt, lemma_all_below_multiset, lemma_no_duplicates_multiset, merge_sort, PositionOrder,
    RankPairs,
};
use crate::order::{
    distinct, first_bytes, lemma_lex_asymmetric, lemma_lex_first_bytes, lemma_lex_irreflexive, lemma_lex_total,
    lemma_lex_transitive, lemma_sorted_permutation_exists, lemma_sorted_permutation_unique, lex_lt,
    sorted_permutation, strict_total_on,
};

verus! {

/// The suffix of `s` that starts at position `i`.
pub open spec fn suffix(s: Seq<u8>, i: int) -> Seq<u8> {
    s.subrange(i, s.len() as int)
}

/// Positions ordered by the suffixes that start there; a suffix that is a
/// proper prefix of another sorts first (as if the text ended with a
/// sentinel smaller than every byte).
pub open spec fn suffix_order(s: Seq<u8>) -> spec_fn(int, int) -> bool {
    |x: int, y: int| lex_lt(suffix(s, x), suffix(s, y))
}

/// `sa` lists the start positions of all suffixes of `s`, in increasing
/// order of the suffixes.
pub open spec fn is_suffix_array(s: Seq<u8>, sa: Seq<usize>) -> bool {
    sorted_permutation(sa, s.len() as int, suffix_order(s))
}

/// The BWT byte of the row whose suffix starts at `start`: the byte before
/// it, or the last byte of the text for the whole text.
pub open spec fn bwt_char(s: Seq<u8>, start: usize) -> u8 {
    if start == 0 {
        s[s.len() - 1]
    } else {
        s[start - 1]
    }
}

/// The BWT column read off the rows `sa`.
pub open spec fn bwt_of(s: Seq<u8>, sa: Seq<usize>) -> Seq<u8> {
    Seq::new(sa.len(), |i: int| bwt_char(s, sa[i]))
}

/// The last row of `sa` that holds the whole text (start 0), or 0 if none
/// does.
pub open spec fn last_zero(sa: Seq<usize>) -> usize
    decreases sa.len(),
{
    if sa.len() == 0 {
        0
    } else if sa.last() == 0 {
        (sa.len() - 1) as usize
    } else {
        last_zero(sa.drop_last())
    }
}

/// Distinct positions start distinct suffixes, and the suffix order is a
/// strict total order on the positions of `s`.
pub proof fn lemma_suffix_order_total(s: Seq<u8>)
    ensures
        strict_total_on(suffix_order(s), s.len() as int),
{
    let n = s.len() as int;
    let lt = suffix_order(s);
    assert forall|x: int| 0 <= x < n implies !#[trigger] lt(x, x) by {
        lemma_lex_irreflexive(suffix(s, x));
    }
    assert forall|x: int, y: int, z: int|
        0 <= x < n && 0 <= y < n && 0 <= z < n && #[trigger] lt(x, y) && #[trigger] lt(y, z)
        implies lt(x, z) by {
        lemma_lex_transitive(suffix(s, x), suffix(s, y), suffix(s, z));
    }
    assert forall|x: int, y: int| 0 <= x < n && 0 <= y < n && x != y
        implies #[trigger] lt(x, y) || #[trigger] lt(y, x) by {
        assert(suffix(s, x).len() != suffix(s, y).len());
        lemma_lex_total(suffix(s, x), suffix(s, y));
    }
}

/// The suffix array of `s` (there is exactly one; see
/// `lemma_suffix_array_unique`).
pub open spec fn spec_suffix_array(s: Seq<u8>) -> Seq<usize> {
    choose|sa: Seq<usize>| is_suffix_array(s, sa)
}

/// A text has only one suffix array.
pub proof fn lemma_suffix_array_unique(s: Seq<u8>, sa: Seq<usize>)
    requires
        is_suffix_array(s, sa),
    ensures
        spec_suffix_array(s) == sa,
{
    lemma_suffix_order_total(s);
    let c = spec_suffix_array(s);
    assert(is_suffix_array(s, c));
    lemma_sorted_permutation_unique(c, sa, s.len() as int, suffix_order(s));
}

/// Every text that fits in memory has a suffix array.
pub proof fn lemma_suffix_array_exists(s: Seq<u8>)
    requires
        s.len() <= usize::MAX,
    ensures
        is_suffix_array(s, spec_suffix_array(s)),
{
    lemma_suffix_order_total(s);
    lemma_sorted_permutation_exists(s.len() as int, suffix_order(s));
    let p = choose|p: Seq<usize>| sorted_permutation(p, s.len() as int, suffix_order(s));
    assert(is_suffix_array(s, p));
}

/// The unique zero of a sequence of distinct positions is at `last_zero`.
pub proof fn lemma_last_zero_at(p: Seq<usize>, i: int)
    requires
        distinct(p),
        p.len() <= usize::MAX,
        0 <= i < p.len(),
        p[i] == 0,
    ensures
        last_zero(p) == i,
    decreases p.len(),
{
    if i < p.len() - 1 {
        assert(p.last() != 0);
        let q = p.drop_last();
        assert(distinct(q));
        lemma_last_zero_at(q, i);
    }
}

/// Read the BWT off a suffix array.
///
/// For each entry `sa[i]`, the BWT byte is the byte just before the suffix
/// start (or the last byte if `sa[i] == 0`); the primary index is the last
/// row that holds start 0.
pub fn bwt_from_suffix_array(data: &[u8], sa: &[usize]) -> (r: (Vec<u8>, usize))
    requires
        forall|i: int| 0 <= i < sa@.len() ==> #[trigger] sa@[i] <= data@.len(),
        sa@.len() > 0 ==> data@.len() > 0,
    ensures
        r.0@ == bwt_of(data@, sa@),
        r.1 == last_zero(sa@),
{
    let n = data.len();
    let mut bwt: Vec<u8> = Vec::with_capacity(n);
    let mut primary_index: usize = 0;
    let mut i: usize = 0;
    while i < sa.len()
        invariant
            n == data@.len(),
            0 <= i <= sa@.len(),
            forall|j: int| 0 <= j < sa@.len() ==> #[trigger] sa@[j] <= data@.len(),
            sa@.len() > 0 ==> data@.len() > 0,
            bwt@ == bwt_of(data@, sa@.take(i as int)),
            primary_index == last_zero(sa@.take(i as int)),
        decreases sa@.len() - i,
    {
        let start = sa[i];
        if start == 0 {
            bwt.push(data[n - 1]);
            primary_index = i;
        } else {
            bwt.push(data[start - 1]);
        }
        assert(sa@.take(i + 1).drop_last() =~= sa@.take(i as int));
        assert(bwt@ =~= bwt_of(data@, sa@.take(i + 1)));
        i = i + 1;
    }
    assert(sa@.take(sa@.len() as int) =~= sa@);
    (bwt, primary_index)
}

/// The first `k` bytes of the suffix at `x` (fewer where the text ends).
pub open spec fn pref(s: Seq<u8>, x: int, k: int) -> Seq<u8> {
    first_bytes(suffix(s, x), k)
}

/// Positions keyed by their first `k` bytes.
spec fn prefix_key(s: Seq<u8>, k: int) -> spec_fn(int) -> Seq<u8> {
    |x: int| pref(s, x, k)
}

/// `r` ranks the positions of `s` by their first `k` bytes, and is positive.
spec fn ranks_agree(s: Seq<u8>, r: Seq<usize>, k: int) -> bool {
    &&& ranks_match(r, prefix_key(s, k), s.len() as int)
    &&& forall|x: int| 0 <= x < s.len() ==> #[trigger] r[x] >= 1
}

/// The rank of the block of `k` bytes that follows the first `k` bytes of
/// the suffix at `x`; 0 stands for an empty block.
spec fn second_key(r: Seq<usize>, k: int, x: int) -> usize {
    if x + k < r.len() {
        r[x + k]
    } else {
        0
    }
}

/// The second block of the first `2k` bytes of the suffix at `x`.
spec fn second_block(s: Seq<u8>, x: int, k: int) -> Seq<u8> {
    if x + k < s.len() {
        pref(s, x + k, k)
    } else {
        Seq::empty()
    }
}

proof fn lemma_pref_split(s: Seq<u8>, x: int, k: int)
    requires
        0 <= x < s.len(),
        k >= 1,
    ensures
        pref(s, x, 2 * k) == pref(s, x, k) + second_block(s, x, k),
        pref(s, x, k).len() <= k,
        pref(s, x, k).len() < k ==> second_block(s, x, k).len() == 0,
        x + k < s.len() ==> second_block(s, x, k).len() > 0,
{
    assert(pref(s, x, 2 * k) =~= pref(s, x, k) + second_block(s, x, k));
}

/// Ranks by the first `k` bytes, paired with the ranks of the next `k`
/// bytes (0 where none follow), order the positions by their first `2k`
/// bytes.
proof fn lemma_suffix_pair_ranks(s: Seq<u8>, r: Seq<usize>, r2: Seq<usize>, k: int)
    requires
        ranks_agree(s, r, k),
        k >= 1,
        r2.len() == s.len(),
        forall|x: int| 0 <= x < s.len() ==> #[trigger] r2[x] == second_key(r, k, x),
    ensures
        forall|x: int, y: int|
            0 <= x < s.len() && 0 <= y < s.len() ==> #[trigger] key_lt(r, r2, x, y) == lex_lt(
                pref(s, x, 2 * k),
                pref(s, y, 2 * k),
            ),
        forall|x: int, y: int|
            0 <= x < s.len() && 0 <= y < s.len() ==> #[trigger] key_eq(r, r2, x, y) == (pref(s, x, 2 * k)
                == pref(s, y, 2 * k)),
{
    let n = s.len() as int;
    let key = prefix_key(s, k);
    let blk = |x: int| second_block(s, x, k);
    let key2 = prefix_key(s, 2 * k);
    assert forall|x: int, y: int| 0 <= x < n && 0 <= y < n implies {
        &&& (#[trigger] r2[x] < #[trigger] r2[y]) == lex_lt(blk(x), blk(y))
        &&& (r2[x] == r2[y]) == (blk(x) == blk(y))
    } by {
        lemma_pref_split(s, x, k);
        lemma_pref_split(s, y, k);
        let bx = second_block(s, x, k);
        let by = second_block(s, y, k);
        assert(r2[x] == second_key(r, k, x));
        assert(r2[y] == second_key(r, k, y));
        if x + k < n && y + k < n {
            assert((r[x + k] < r[y + k]) == lex_lt(key(x + k), key(y + k)));
            assert((r[x + k] == r[y + k]) == (key(x + k) == key(y + k)));
        } else if x + k < n {
            assert(r[x + k] >= 1);
            assert(by.len() == 0);
            assert(bx != by);
            lemma_lex_irreflexive(by);
            assert(lex_lt(by, bx));
            lemma_lex_asymmetric(by, bx);
        } else if y + k < n {
            assert(r[y + k] >= 1);
            assert(bx.len() == 0);
            assert(bx != by);
        } else {
            assert(bx =~= by);
            lemma_lex_irreflexive(bx);
        }
    }
    assert forall|x: int| 0 <= x < n implies #[trigger] key2(x) == key(x) + blk(x) && key(x).len() <= k && (key(
        x,
    ).len() < k ==> blk(x).len() == 0) by {
        lemma_pref_split(s, x, k);
    }
    lemma_pair_ranks(r, r2, key, blk, key2, n, k);
}

/// Once the ranks order whole suffixes, or separate all positions, the
/// order sorted by them is the suffix array.
proof fn lemma_sorted_by_final_ranks(s: Seq<u8>, t: Seq<usize>, sa: Seq<usize>, k2: int)
    requires
        ranks_agree(s, t, k2),
        k2 >= 0,
        sa.len() == s.len(),
        forall|i: int| 0 <= i < s.len() ==> #[trigger] sa[i] < s.len(),
        distinct(sa),
        forall|i: int, j: int| 0 <= i < j < s.len() ==> t[#[trigger] sa[i] as int] <= t[#[trigger] sa[j] as int],
        k2 >= s.len() || forall|i: int, j: int|
            0 <= i < j < s.len() ==> t[#[trigger] sa[i] as int] != t[#[trigger] sa[j] as int],
    ensures
        is_suffix_array(s, sa),
{
    let n = s.len() as int;
    assert forall|i: int, j: int| 0 <= i < j < n implies (suffix_order(s))(#[trigger] sa[i] as int, #[trigger] sa[j] as int) by {
        let x = sa[i] as int;
        let y = sa[j] as int;
        assert(x != y);
        assert(t[x] <= t[y]);
        if t[x] == t[y] {
            assert(k2 >= n);
            assert(pref(s, x, k2) == pref(s, y, k2));
            assert(pref(s, x, k2) == suffix(s, x));
            assert(pref(s, y, k2) == suffix(s, y));
            assert(suffix(s, x).len() != suffix(s, y).len());
        }
        assert(lex_lt(pref(s, x, k2), pref(s, y, k2)));
        lemma_lex_first_bytes(suffix(s, x), suffix(s, y), k2);
    }
}

/// Build a suffix array by prefix doubling.
///
/// `sa[i]` is the start of the `i`-th smallest suffix of `data`. Suffixes
/// are compared as if the data ended with a sentinel smaller than every
/// byte, so a suffix sorts before every longer suffix that it starts.
pub fn build_suffix_array(data: &[u8]) -> (sa: Vec<usize>)
    ensures
        is_suffix_array(data@, sa@),
{
    let n = data.len();
    if n == 0 {
        return Vec::new();
    }
    let ghost s = data@;
    let mut sa: Vec<usize> = Vec::new();
    let mut rank: Vec<usize> = Vec::new();
    let mut x: usize = 0;
    while x < n
        invariant
            n == s.len(),
            s == data@,
            0 <= x <= n,
            sa@.len() == x,
            rank@.len() == x,
            forall|t: int| 0 <= t < x ==> #[trigger] sa@[t] == t,
            forall|t: int| 0 <= t < x ==> #[trigger] rank@[t] == s[t] + 1,
        decreases n - x,
    {
        sa.push(x);
        rank.push(data[x] as usize + 1);
        x = x + 1;
    }
    proof {
        assert forall|x: int| 0 <= x < n implies #[trigger] (prefix_key(s, 1))(x) == seq![s[x]] by {
            assert(pref(s, x, 1) =~= seq![s[x]]);
        }
        lemma_byte_ranks(s, rank@, prefix_key(s, 1));
    }
    let mut k: usize = 1;
    while k < n
        invariant_except_break
            ranks_agree(s, rank@, k as int),
        invariant
            n == s.len(),
            s == data@,
            n >= 1,
            k >= 1,
            k >= n ==> n == 1,
            sa@.len() == n,
            rank@.len() == n,
            forall|t: int| 0 <= t < n ==> #[trigger] sa@[t] < n,
            distinct(sa@),
        ensures
            is_suffix_array(s, sa@),
        decreases n - k,
    {
        // The rank of the next k bytes after each position.
        let mut second: Vec<usize> = Vec::new();
        let mut y: usize = 0;
        while y < n
            invariant
                n == s.len(),
                rank@.len() == n,
                0 <= y <= n,
                second@.len() == y,
                forall|t: int| 0 <= t < y ==> #[trigger] second@[t] == second_key(rank@, k as int, t),
            decreases n - y,
        {
            if k < n - y {
                second.push(rank[y + k]);
            } else {
                second.push(0);
            }
            y = y + 1;
        }
        proof {
            lemma_suffix_pair_ranks(s, rank@, second@, k as int);
        }
        // Sort by the ranks of the first k bytes, then of the next k.
        let ghost unsorted = sa@;
        let ord = RankPairs { first: &rank, second: &second };
        sa = merge_sort(&ord, sa.as_slice());
        proof {
            lemma_all_below_multiset(sa@, unsorted, n as nat);
            assert(unsorted.no_duplicates());
            lemma_no_duplicates_multiset(sa@, unsorted);
            assert forall|a: int, b: int|
                0 <= a < b < n implies key_le(rank@, second@, #[trigger] sa@[a] as int, #[trigger] sa@[b] as int) by {
                assert(ord.le(sa@[a] as int, sa@[b] as int));
            }
        }
        // Dense ranks of the first 2k bytes, handed out in sorted order.
        let dense = dense_ranks(&sa, &rank, &second);
        proof {
            lemma_dense_ranks(rank@, second@, sa@, dense@, prefix_key(s, 2 * k), n as int);
            assert forall|a: int, b: int| 0 <= a < b < n implies dense@[#[trigger] sa@[a] as int] <= dense@[#[trigger] sa@[b] as int] by {
                assert(key_le(rank@, second@, sa@[a] as int, sa@[b] as int));
            }
        }
        rank = dense;
        // Done once every position has a rank of its own, or once 2k bytes
        // cover every suffix.
        if rank[sa[n - 1]] == n {
            proof {
                assert forall|a: int| 0 <= a < n implies #[trigger] rank@[sa@[a] as int] == a + 1 by {
                    assert(rank@[sa@[n - 1] as int] - rank@[sa@[a] as int] <= n - 1 - a);
                }
                assert forall|a: int, b: int| 0 <= a < b < n implies rank@[#[trigger] sa@[a] as int] != rank@[#[trigger] sa@[b] as int] by {
                    assert(rank@[sa@[a] as int] == a + 1);
                    assert(rank@[sa@[b] as int] == b + 1);
                }
                lemma_sorted_by_final_ranks(s, rank@, sa@, 2 * k);
            }
            break;
        }
        if k >= n - k {
            proof {
                lemma_sorted_by_final_ranks(s, rank@, sa@, 2 * k);
            }
            break;
        }
        k = k * 2;
    }
    sa
}

/// Build the suffix array of the data followed by an end-of-text sentinel
/// smaller than every byte; that is the order `build_suffix_array` uses.
pub fn build_suffix_array_with_sentinel(data: &[u8]) -> (sa: Vec<usize>)
    ensures
        is_suffix_array(data@, sa@),
{
    build_suffix_array(data)
}

} // verus!
