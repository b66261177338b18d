//! Inverse Burrows-Wheeler Transform.

use vstd::prelude::*;
use vstd::relations::injective_on;
use vstd::set_lib::{
    lemma_int_range, lemma_len_subset, lemma_map_size, lemma_set_disjoint_lens, lemma_set_subset_finite, set_int_range,
};
use vstd::slice::slice_to_vec;
use crate::bwt_forward::{lemma_last_column_bwt, spec_transform, transform};
use crate::order::{
    below, bytes_eq, lemma_lex_irreflexive, lemma_lex_total, lemma_lex_transitive, lemma_sorted_permutation_covers,
    lemma_sorted_permutation_distinct, lemma_sorted_permutation_rank, lex_lt, occurs, sorted_permutation,
    strict_total_on,
};
use crate::rotation::{
    last_column, lemma_rotation_order_total, lemma_rotation_pred, lemma_rotation_pred_congruent,
    lemma_rotation_shift, lemma_rotation_sort_exists, lemma_rotation_sort_unique, pred, rotation,
    rotation_is_text, rotation_order, sort_rotations, spec_rotation_sort, succ,
};
use crate::suffix::{bwt_from_suffix_array, last_zero, lemma_last_zero_at};

verus! {

/// The number of occurrences of byte `c` in `l`.
pub open spec fn count_of(l: Seq<u8>, c: int) -> nat
    decreases l.len(),
{
    if l.len() == 0 {
        0
    } else {
        count_of(l.drop_last(), c) + if l.last() == c {
            1nat
        } else {
            0nat
        }
    }
}

/// The number of bytes of `l` smaller than `c`.
pub open spec fn count_lt(l: Seq<u8>, c: int) -> nat
    decreases l.len(),
{
    if l.len() == 0 {
        0
    } else {
        count_lt(l.drop_last(), c) + if l.last() < c {
            1nat
        } else {
            0nat
        }
    }
}

/// The LF mapping of a BWT column: row `i` goes to the row of its byte
/// `l[i]` in the sorted column, counting equal bytes in order.
pub open spec fn lf(l: Seq<u8>, i: int) -> int {
    (count_lt(l, l[i] as int) + count_of(l.take(i), l[i] as int)) as int
}

/// The row reached from `p` after `t` steps of the LF mapping.
pub open spec fn lf_iter(l: Seq<u8>, p: int, t: nat) -> int
    decreases t,
{
    if t == 0 {
        p
    } else {
        lf(l, lf_iter(l, p, (t - 1) as nat))
    }
}

/// The bytes read off the LF walk of `l` from row `p`, last byte first.
pub open spec fn lf_walk_text(l: Seq<u8>, p: int) -> Seq<u8> {
    Seq::new(l.len(), |i: int| l[lf_iter(l, p, (l.len() - 1 - i) as nat)])
}

/// `(l, p)` is a BWT of the text `v`: `l` is the last column of `v`'s
/// rotation table, and row `p` of that table is `v` itself.
pub open spec fn is_bwt_pair(v: Seq<u8>, l: Seq<u8>, p: usize) -> bool {
    &&& v.len() == l.len()
    &&& p < l.len()
    &&& last_column(v, spec_rotation_sort(v)) == l
    &&& rotation(v, spec_rotation_sort(v)[p as int] as int) == v
}

/// What `inverse` returns: the empty text for an empty column; otherwise
/// the text read off the LF walk from the primary index, if the pair is a
/// BWT of that text, and `None` if it is not (a primary index out of range
/// included).
pub open spec fn spec_inverse(l: Seq<u8>, p: usize) -> Option<Seq<u8>> {
    if l.len() == 0 {
        Some(Seq::empty())
    } else if p < l.len() && is_bwt_pair(lf_walk_text(l, p as int), l, p) {
        Some(lf_walk_text(l, p as int))
    } else {
        None
    }
}

proof fn lemma_count_of_prefix(l: Seq<u8>, c: int, i: int)
    requires
        0 <= i <= l.len(),
    ensures
        count_of(l.take(i), c) <= count_of(l, c),
    decreases l.len() - i,
{
    if i < l.len() {
        lemma_count_of_prefix(l, c, i + 1);
        assert(l.take(i + 1).drop_last() =~= l.take(i));
    } else {
        assert(l.take(i) =~= l);
    }
}

proof fn lemma_count_lt_step(l: Seq<u8>, c: int)
    ensures
        count_lt(l, c + 1) == count_lt(l, c) + count_of(l, c),
        count_lt(l, c) <= l.len(),
    decreases l.len(),
{
    if l.len() > 0 {
        lemma_count_lt_step(l.drop_last(), c);
    }
}

proof fn lemma_count_lt_all(l: Seq<u8>)
    ensures
        count_lt(l, 256) == l.len(),
    decreases l.len(),
{
    if l.len() > 0 {
        lemma_count_lt_all(l.drop_last());
    }
}

/// The LF mapping stays within the column.
pub proof fn lemma_lf_bound(l: Seq<u8>, i: int)
    requires
        0 <= i < l.len(),
    ensures
        0 <= lf(l, i) < l.len(),
{
    let c = l[i] as int;
    lemma_count_of_prefix(l, c, i + 1);
    assert(l.take(i + 1).drop_last() =~= l.take(i));
    lemma_count_lt_step(l, c);
    lemma_count_lt_step(l, c + 1);
    lemma_count_lt_mono(l, c + 1, 256);
    lemma_count_lt_all(l);
}

proof fn lemma_count_lt_mono(l: Seq<u8>, c: int, d: int)
    requires
        c <= d,
    ensures
        count_lt(l, c) <= count_lt(l, d),
    decreases d - c,
{
    if c < d {
        lemma_count_lt_mono(l, c, d - 1);
        lemma_count_lt_step(l, d - 1);
    }
}

fn zeros(len: usize) -> (v: Vec<usize>)
    ensures
        v@.len() == len,
        forall|i: int| 0 <= i < len ==> #[trigger] v@[i] == 0,
{
    let mut v: Vec<usize> = Vec::with_capacity(len);
    let mut i: usize = 0;
    while i < len
        invariant
            0 <= i <= len,
            v@.len() == i,
            forall|t: int| 0 <= t < i ==> #[trigger] v@[t] == 0,
        decreases len - i,
    {
        v.push(0);
        i = i + 1;
    }
    v
}

/// Recover the original data from BWT output and the primary index.
///
/// Uses the standard LF-mapping technique: starting at the primary index,
/// each step emits the row's byte (from the last byte of the result to the
/// first) and moves to the LF row of that byte.
///
/// Returns `Some(Vec::new())` for empty input. Otherwise the recovered
/// text is checked by sorting its rotations: the result is `Some(text)`
/// when `bwt` is the last column of the text's rotation table and row
/// `primary_index` of it is the text, and `None` when the inputs are no
/// BWT of any text (a primary index out of range included).
pub fn inverse(bwt: &[u8], primary_index: usize) -> (r: Option<Vec<u8>>)
    ensures
        match r {
            Some(v) => spec_inverse(bwt@, primary_index) == Some(v@),
            None => spec_inverse(bwt@, primary_index) is None,
        },
{
    if bwt.is_empty() {
        return Some(Vec::new());
    }
    if primary_index >= bwt.len() {
        return None;
    }
    let n = bwt.len();
    let ghost l = bwt@;
    // Count the occurrences of each byte.
    let mut count = zeros(256);
    let mut i: usize = 0;
    while i < n
        invariant
            n == l.len(),
            l == bwt@,
            0 <= i <= n,
            count@.len() == 256,
            forall|c: int| 0 <= c < 256 ==> #[trigger] count@[c] == count_of(l.take(i as int), c),
        decreases n - i,
    {
        let b = bwt[i] as usize;
        proof {
            assert(l.take(i + 1).drop_last() =~= l.take(i as int));
            lemma_count_of_prefix(l, b as int, i as int);
            lemma_count_of_le_len(l.take(i as int), b as int);
        }
        count.set(b, count[b] + 1);
        i = i + 1;
    }
    assert(l.take(n as int) =~= l);
    // The first row of each byte in the sorted column.
    let mut start = zeros(256);
    let mut sum: usize = 0;
    let mut c: usize = 0;
    proof {
        lemma_count_lt_zero(l);
    }
    while c < 256
        invariant
            n == l.len(),
            0 <= c <= 256,
            count@.len() == 256,
            start@.len() == 256,
            forall|d: int| 0 <= d < 256 ==> #[trigger] count@[d] == count_of(l, d),
            forall|d: int| 0 <= d < c ==> #[trigger] start@[d] == count_lt(l, d),
            sum == count_lt(l, c as int),
        decreases 256 - c,
    {
        start.set(c, sum);
        proof {
            lemma_count_lt_step(l, c as int);
            lemma_count_lt_step(l, c + 1);
        }
        sum = sum + count[c];
        c = c + 1;
    }
    // The LF mapping.
    let mut lf_map = zeros(n);
    let mut occ = zeros(256);
    let mut i: usize = 0;
    while i < n
        invariant
            n == l.len(),
            l == bwt@,
            0 <= i <= n,
            start@.len() == 256,
            occ@.len() == 256,
            lf_map@.len() == n,
            forall|d: int| 0 <= d < 256 ==> #[trigger] start@[d] == count_lt(l, d),
            forall|d: int| 0 <= d < 256 ==> #[trigger] occ@[d] == count_of(l.take(i as int), d),
            forall|t: int| 0 <= t < i ==> #[trigger] lf_map@[t] == lf(l, t),
        decreases n - i,
    {
        let b = bwt[i] as usize;
        proof {
            lemma_lf_bound(l, i as int);
            assert(l.take(i + 1).drop_last() =~= l.take(i as int));
            lemma_count_of_prefix(l, b as int, i + 1);
            lemma_count_of_le_len(l, b as int);
        }
        lf_map.set(i, start[b] + occ[b]);
        occ.set(b, occ[b] + 1);
        i = i + 1;
    }
    // Follow the LF mapping from the primary index.
    let mut result: Vec<u8> = Vec::with_capacity(n);
    let mut t: usize = 0;
    while t < n
        invariant
            t <= n,
            result@.len() == t,
            forall|j: int| 0 <= j < t ==> #[trigger] result@[j] == 0,
        decreases n - t,
    {
        result.push(0);
        t = t + 1;
    }
    let mut idx = primary_index;
    let mut i: usize = n;
    while i > 0
        invariant
            n == l.len(),
            l == bwt@,
            0 <= i <= n,
            primary_index < n,
            lf_map@.len() == n,
            forall|t: int| 0 <= t < n ==> #[trigger] lf_map@[t] == lf(l, t),
            idx == lf_iter(l, primary_index as int, (n - i) as nat),
            0 <= idx < n,
            result@.len() == n,
            forall|j: int| i <= j < n ==> #[trigger] result@[j] == l[lf_iter(l, primary_index as int, (n - 1 - j) as nat)],
        decreases i,
    {
        i = i - 1;
        result.set(i, bwt[idx]);
        proof {
            lemma_lf_bound(l, idx as int);
        }
        idx = lf_map[idx];
    }
    assert(result@ =~= lf_walk_text(l, primary_index as int));
    // Check that the recovered text transforms back to the input.
    let table = sort_rotations(result.as_slice());
    proof {
        lemma_rotation_sort_unique(result@, table@);
        lemma_last_column_bwt(result@, table@);
    }
    let (column, _) = bwt_from_suffix_array(result.as_slice(), table.as_slice());
    if !bytes_eq(column.as_slice(), bwt) {
        return None;
    }
    if !rotation_is_text(result.as_slice(), table[primary_index]) {
        return None;
    }
    Some(result)
}

proof fn lemma_count_lt_zero(l: Seq<u8>)
    ensures
        count_lt(l, 0) == 0,
    decreases l.len(),
{
    if l.len() > 0 {
        lemma_count_lt_zero(l.drop_last());
    }
}

proof fn lemma_count_of_le_len(l: Seq<u8>, c: int)
    ensures
        count_of(l, c) <= l.len(),
    decreases l.len(),
{
    if l.len() > 0 {
        lemma_count_of_le_len(l.drop_last(), c);
    }
}

/// The positions at which `l` holds `c`.
pub open spec fn positions_of(l: Seq<u8>, c: int) -> Set<int> {
    Set::new(|j: int| 0 <= j < l.len() && l[j] == c)
}

/// Counting a byte is counting the positions that hold it.
pub proof fn lemma_count_of_set(l: Seq<u8>, c: int)
    ensures
        positions_of(l, c).finite(),
        count_of(l, c) == positions_of(l, c).len(),
    decreases l.len(),
{
    let st = positions_of(l, c);
    lemma_int_range(0, l.len() as int);
    lemma_set_subset_finite(set_int_range(0, l.len() as int), st);
    if l.len() > 0 {
        let q = l.drop_last();
        lemma_count_of_set(q, c);
        let sq = positions_of(q, c);
        if l.last() == c {
            assert(st =~= sq.insert(l.len() - 1));
        } else {
            assert(st =~= sq);
        }
    } else {
        assert(st =~= Set::empty());
    }
}

proof fn lemma_count_lt_set(l: Seq<u8>, c: int)
    ensures
        Set::new(|j: int| 0 <= j < l.len() && l[j] < c).finite(),
        count_lt(l, c) == Set::new(|j: int| 0 <= j < l.len() && l[j] < c).len(),
    decreases l.len(),
{
    let st = Set::new(|j: int| 0 <= j < l.len() && l[j] < c);
    lemma_int_range(0, l.len() as int);
    lemma_set_subset_finite(set_int_range(0, l.len() as int), st);
    if l.len() > 0 {
        let q = l.drop_last();
        lemma_count_lt_set(q, c);
        let sq = Set::new(|j: int| 0 <= j < q.len() && q[j] < c);
        if l.last() < c {
            assert(st =~= sq.insert(l.len() - 1));
        } else {
            assert(st =~= sq);
        }
    } else {
        assert(st =~= Set::empty());
    }
}

proof fn lemma_row_order(sa: Seq<usize>, n: int, lt: spec_fn(int, int) -> bool, j: int, i: int)
    requires
        strict_total_on(lt, n),
        sorted_permutation(sa, n, lt),
        0 <= i < n,
        0 <= j < n,
        lt(sa[j] as int, sa[i] as int),
    ensures
        j < i,
{
    if j == i {
    } else if j > i {
        assert(lt(sa[i] as int, sa[j] as int));
    }
}

/// The rotation starts whose rotations sort below `rb`.
spec fn rotations_below(s: Seq<u8>, rb: Seq<u8>) -> Set<int> {
    Set::new(|x: int| 0 <= x < s.len() && lex_lt(rotation(s, x), rb))
}

/// The rotation starts whose rotations equal `rb`.
spec fn rotations_equal(s: Seq<u8>, rb: Seq<u8>) -> Set<int> {
    Set::new(|x: int| 0 <= x < s.len() && rotation(s, x) == rb)
}

proof fn lemma_rotation_sets_finite(s: Seq<u8>, rb: Seq<u8>)
    ensures
        rotations_below(s, rb).finite(),
        rotations_equal(s, rb).finite(),
        rotations_below(s, rb).disjoint(rotations_equal(s, rb)),
{
    let n = s.len() as int;
    lemma_int_range(0, n);
    lemma_set_subset_finite(set_int_range(0, n), rotations_below(s, rb));
    lemma_set_subset_finite(set_int_range(0, n), rotations_equal(s, rb));
    lemma_lex_irreflexive(rb);
}

/// In the rotation table, the rows from the number of rotations below `rb`
/// on, as many as there are rotations equal to `rb`, hold rotations equal
/// to `rb`.
proof fn lemma_rows_of_rotation(s: Seq<u8>, p: Seq<usize>, r: int, rb: Seq<u8>)
    requires
        sorted_permutation(p, s.len() as int, rotation_order(s)),
        0 <= r < s.len(),
        rotations_below(s, rb).len() <= r < rotations_below(s, rb).len() + rotations_equal(s, rb).len(),
    ensures
        rotation(s, p[r] as int) == rb,
{
    let n = s.len() as int;
    let lt = rotation_order(s);
    let lo = rotations_below(s, rb);
    let eq = rotations_equal(s, rb);
    lemma_rotation_order_total(s);
    lemma_rotation_sets_finite(s, rb);
    lemma_sorted_permutation_rank(p, n, lt, r);
    let q = p[r] as int;
    let rq = rotation(s, q);
    let bl = below(n, lt, q);
    if rq != rb {
        lemma_lex_total(rq, rb);
        if lex_lt(rq, rb) {
            assert(bl.subset_of(lo.remove(q))) by {
                assert forall|y: int| bl.contains(y) implies lo.remove(q).contains(y) by {
                    if lex_lt(rotation(s, y), rq) {
                        lemma_lex_transitive(rotation(s, y), rq, rb);
                    }
                }
            }
            lemma_len_subset(bl, lo.remove(q));
            assert(lo.contains(q));
        } else {
            assert((lo + eq).subset_of(bl)) by {
                assert forall|x: int| (lo + eq).contains(x) implies bl.contains(x) by {
                    if lo.contains(x) {
                        lemma_lex_transitive(rotation(s, x), rb, rq);
                    }
                }
            }
            lemma_set_disjoint_lens(lo, eq);
            lemma_len_subset(lo + eq, bl);
        }
    }
}

/// The LF mapping of the last column of the rotation table sends row `i`
/// among the rows whose rotations equal the rotation one position back
/// from row `i`'s.
proof fn lemma_lf_counts(s: Seq<u8>, p: Seq<usize>, i: int)
    requires
        s.len() >= 1,
        sorted_permutation(p, s.len() as int, rotation_order(s)),
        0 <= i < s.len(),
    ensures
        rotations_below(s, rotation(s, pred(s.len() as int, p[i] as int))).len() <= lf(last_column(s, p), i),
        lf(last_column(s, p), i) < rotations_below(s, rotation(s, pred(s.len() as int, p[i] as int))).len()
            + rotations_equal(s, rotation(s, pred(s.len() as int, p[i] as int))).len(),
{
    let n = s.len() as int;
    let lt = rotation_order(s);
    let l = last_column(s, p);
    lemma_rotation_order_total(s);
    lemma_sorted_permutation_distinct(p, n, lt);
    lemma_sorted_permutation_covers(p, n, lt);
    let a = p[i] as int;
    lemma_rotation_pred(s, a);
    let b = pred(n, a);
    let c = l[i];
    assert(c == s[b]);
    let rb = rotation(s, b);
    lemma_rotation_pred(s, b);
    lemma_int_range(0, n);
    let range = set_int_range(0, n);
    let lo = rotations_below(s, rb);
    let eq = rotations_equal(s, rb);
    lemma_rotation_sets_finite(s, rb);
    // The rotations below rb: smaller first byte, or first byte c and lower.
    let xlt = Set::new(|x: int| 0 <= x < n && s[x] < c);
    let ylt = Set::new(|x: int| 0 <= x < n && s[x] == c && lex_lt(rotation(s, x), rb));
    assert(lo =~= xlt + ylt) by {
        assert forall|x: int| lo.contains(x) <==> (xlt + ylt).contains(x) by {
            if 0 <= x < n {
                lemma_rotation_pred(s, x);
            }
        }
    }
    lemma_set_subset_finite(range, xlt);
    lemma_set_subset_finite(range, ylt);
    assert(xlt.disjoint(ylt));
    lemma_set_disjoint_lens(xlt, ylt);
    // The rows that LF counts.
    let bset = Set::new(|j: int| 0 <= j < n && l[j] < c);
    let aset = Set::new(|j: int| 0 <= j < i && l[j] == c);
    lemma_count_lt_set(l, c as int);
    lemma_count_of_set(l.take(i), c as int);
    assert(aset =~= positions_of(l.take(i), c as int));
    lemma_set_subset_finite(range, bset);
    lemma_set_subset_finite(range, aset);
    let f = |j: int| pred(n, p[j] as int);
    assert(injective_on(f, range)) by {
        assert forall|j1: int, j2: int| range.contains(j1) && range.contains(j2) && #[trigger] f(j1) == #[trigger] f(j2)
            implies j1 == j2 by {
            lemma_rotation_pred(s, p[j1] as int);
            lemma_rotation_pred(s, p[j2] as int);
        }
    }
    assert(injective_on(f, bset));
    assert(injective_on(f, aset));
    // Rows with a smaller last byte correspond to positions with a smaller byte.
    assert(bset.map(f) =~= xlt) by {
        assert forall|x: int| xlt.contains(x) implies bset.map(f).contains(x) by {
            let a2 = succ(n, x);
            assert(occurs(p, a2));
            let j = choose|j: int| 0 <= j < p.len() && p[j] == a2;
            lemma_rotation_pred(s, a2);
            assert(f(j) == x);
            assert(bset.contains(j));
        }
        assert forall|x: int| bset.map(f).contains(x) implies xlt.contains(x) by {
            let j = choose|j: int| bset.contains(j) && f(j) == x;
            lemma_rotation_pred(s, p[j] as int);
        }
    }
    lemma_map_size(bset, xlt, f);
    // Each rotation below rb that starts with c follows a row above row i
    // that ends with c.
    let g = |y: int| choose|j: int| 0 <= j < p.len() && p[j] == succ(n, y);
    assert(forall|y: int| 0 <= y < n ==> 0 <= #[trigger] g(y) < n && p[g(y)] == succ(n, y)) by {
        assert forall|y: int| 0 <= y < n implies 0 <= #[trigger] g(y) < n && p[g(y)] == succ(n, y) by {
            assert(occurs(p, succ(n, y)));
        }
    }
    assert(injective_on(g, ylt)) by {
        assert forall|y1: int, y2: int| ylt.contains(y1) && ylt.contains(y2) && #[trigger] g(y1) == #[trigger] g(y2)
            implies y1 == y2 by {
            assert(succ(n, y1) == succ(n, y2));
        }
    }
    assert(ylt.map(g).subset_of(aset)) by {
        assert forall|j: int| ylt.map(g).contains(j) implies aset.contains(j) by {
            let y = choose|y: int| ylt.contains(y) && g(y) == j;
            let a2 = succ(n, y);
            lemma_rotation_pred(s, a2);
            assert(pred(n, a2) == y);
            assert(l[j] == s[y]);
            lemma_rotation_shift(s, a2, a);
            assert(lt(a2, a));
            lemma_row_order(p, n, lt, j, i);
        }
    }
    lemma_set_subset_finite(range, ylt);
    lemma_map_size(ylt, ylt.map(g), g);
    lemma_len_subset(ylt.map(g), aset);
    // Each row above row i that ends with c is followed by a rotation below
    // rb, or by another rotation equal to it.
    let upper = ylt + eq.remove(b);
    assert(aset.map(f).subset_of(upper)) by {
        assert forall|y: int| aset.map(f).contains(y) implies upper.contains(y) by {
            let j = choose|j: int| aset.contains(j) && f(j) == y;
            let aj = p[j] as int;
            lemma_rotation_pred(s, aj);
            assert(lt(aj, a));
            lemma_rotation_shift(s, aj, a);
            assert(aj != a);
        }
    }
    assert(eq.contains(b));
    assert(ylt.disjoint(eq.remove(b))) by {
        lemma_lex_irreflexive(rb);
    }
    lemma_set_disjoint_lens(ylt, eq.remove(b));
    lemma_map_size(aset, aset.map(f), f);
    lemma_len_subset(aset.map(f), upper);
}

/// In the rotation table, the LF mapping takes row `i` to a row whose
/// rotation is the rotation one position back from row `i`'s.
proof fn lemma_lf_rotation(s: Seq<u8>, p: Seq<usize>, i: int)
    requires
        s.len() >= 1,
        sorted_permutation(p, s.len() as int, rotation_order(s)),
        0 <= i < s.len(),
    ensures
        0 <= lf(last_column(s, p), i) < s.len(),
        rotation(s, p[lf(last_column(s, p), i)] as int) == rotation(s, pred(s.len() as int, p[i] as int)),
{
    lemma_lf_bound(last_column(s, p), i);
    lemma_lf_counts(s, p, i);
    lemma_rows_of_rotation(s, p, lf(last_column(s, p), i), rotation(s, pred(s.len() as int, p[i] as int)));
}

/// The start of the rotation that the LF walk from the text's own row
/// reaches after `t` steps: `t` positions back from the start.
spec fn walk_start(n: int, t: int) -> int {
    if t == 0 {
        0
    } else {
        n - t
    }
}

/// The text's own rotation sits at row `last_zero(p)` of the table.
proof fn lemma_text_row(s: Seq<u8>, p: Seq<usize>)
    requires
        s.len() >= 1,
        s.len() <= usize::MAX,
        sorted_permutation(p, s.len() as int, rotation_order(s)),
    ensures
        last_zero(p) < s.len(),
        p[last_zero(p) as int] == 0,
{
    let n = s.len() as int;
    let lt = rotation_order(s);
    lemma_rotation_order_total(s);
    lemma_sorted_permutation_distinct(p, n, lt);
    lemma_sorted_permutation_covers(p, n, lt);
    assert(occurs(p, 0));
    let z = choose|z: int| 0 <= z < p.len() && p[z] == 0;
    lemma_last_zero_at(p, z);
}

/// After `t` steps from a row that holds the text itself, the LF walk
/// stands on a row whose rotation equals the one that starts `t` positions
/// back.
proof fn lemma_lf_walk(s: Seq<u8>, p: Seq<usize>, r0: int, t: nat)
    requires
        s.len() >= 1,
        sorted_permutation(p, s.len() as int, rotation_order(s)),
        0 <= r0 < s.len(),
        rotation(s, p[r0] as int) == s,
        t < s.len(),
    ensures
        0 <= lf_iter(last_column(s, p), r0, t) < s.len(),
        rotation(s, p[lf_iter(last_column(s, p), r0, t)] as int) == rotation(
            s,
            walk_start(s.len() as int, t as int),
        ),
    decreases t,
{
    let n = s.len() as int;
    let l = last_column(s, p);
    if t == 0 {
        assert(rotation(s, 0) =~= s);
    } else {
        lemma_lf_walk(s, p, r0, (t - 1) as nat);
        let row = lf_iter(l, r0, (t - 1) as nat);
        lemma_lf_rotation(s, p, row);
        lemma_rotation_pred_congruent(s, p[row] as int, walk_start(n, t - 1));
        assert(pred(n, walk_start(n, t - 1)) == walk_start(n, t as int));
    }
}

/// The forward BWT rearranges its input: it has the same length and holds
/// every byte value as often; the primary index is a row of it.
pub proof fn lemma_transform_rearranges(s: Seq<u8>)
    requires
        s.len() <= usize::MAX,
    ensures
        spec_transform(s).0.len() == s.len(),
        s.len() > 0 ==> spec_transform(s).1 < s.len(),
        forall|c: int| #[trigger] count_of(spec_transform(s).0, c) == count_of(s, c),
{
    let n = s.len() as int;
    if n == 0 {
        assert forall|c: int| #[trigger] count_of(spec_transform(s).0, c) == count_of(s, c) by {
            assert(spec_transform(s).0 =~= s);
        }
    } else {
        let p = spec_rotation_sort(s);
        lemma_rotation_sort_exists(s);
        lemma_text_row(s, p);
        let lt = rotation_order(s);
        let l = last_column(s, p);
        lemma_rotation_order_total(s);
        lemma_sorted_permutation_distinct(p, n, lt);
        lemma_sorted_permutation_covers(p, n, lt);
        let f = |j: int| pred(n, p[j] as int);
        assert forall|c: int| #[trigger] count_of(spec_transform(s).0, c) == count_of(s, c) by {
            let rows = positions_of(l, c);
            let poss = positions_of(s, c);
            lemma_count_of_set(l, c);
            lemma_count_of_set(s, c);
            lemma_int_range(0, n);
            lemma_set_subset_finite(set_int_range(0, n), rows);
            assert(spec_transform(s).0 == l);
            assert(injective_on(f, rows)) by {
                assert forall|j1: int, j2: int| rows.contains(j1) && rows.contains(j2) && #[trigger] f(j1) == #[trigger] f(j2)
                    implies j1 == j2 by {
                    lemma_rotation_pred(s, p[j1] as int);
                    lemma_rotation_pred(s, p[j2] as int);
                }
            }
            assert(rows.map(f) =~= poss) by {
                assert forall|x: int| poss.contains(x) implies rows.map(f).contains(x) by {
                    let a2 = succ(n, x);
                    assert(occurs(p, a2));
                    let j = choose|j: int| 0 <= j < p.len() && p[j] == a2;
                    lemma_rotation_pred(s, a2);
                    assert(f(j) == x);
                    assert(rows.contains(j));
                }
                assert forall|x: int| rows.map(f).contains(x) implies poss.contains(x) by {
                    let j = choose|j: int| rows.contains(j) && f(j) == x;
                    lemma_rotation_pred(s, p[j] as int);
                }
            }
            lemma_map_size(rows, poss, f);
        }
    }
}

/// A BWT pair determines its text: whenever `(l, p)` is a BWT of `v`,
/// `inverse` gives `v` back.
pub proof fn lemma_inverse_of_bwt_pair(v: Seq<u8>, l: Seq<u8>, p: usize)
    requires
        v.len() <= usize::MAX,
        is_bwt_pair(v, l, p),
    ensures
        spec_inverse(l, p) == Some(v),
{
    let n = v.len() as int;
    let table = spec_rotation_sort(v);
    lemma_rotation_sort_exists(v);
    assert(l == last_column(v, table));
    let out = lf_walk_text(l, p as int);
    assert forall|i: int| 0 <= i < n implies #[trigger] out[i] == v[i] by {
        let t = (n - 1 - i) as nat;
        lemma_lf_walk(v, table, p as int, t);
        let row = lf_iter(l, p as int, t);
        let w = walk_start(n, t as int);
        lemma_rotation_pred(v, w);
        assert(out[i] == l[row]);
        assert(l[row] == rotation(v, table[row] as int)[n - 1]);
        assert(pred(n, w) == i);
    }
    assert(out =~= v);
}

/// For a non-empty column, `inverse` answers `Some(v)` exactly when
/// `(l, p)` is a BWT of `v`; on a pair that is a BWT of no text it answers
/// `None`.
pub proof fn lemma_inverse_exact(l: Seq<u8>, p: usize, v: Seq<u8>)
    requires
        l.len() > 0,
        l.len() <= usize::MAX,
    ensures
        (spec_inverse(l, p) == Some(v)) == is_bwt_pair(v, l, p),
{
    if is_bwt_pair(v, l, p) {
        lemma_inverse_of_bwt_pair(v, l, p);
    }
}

/// `inverse` undoes `transform` (and `transform_naive`, which computes the
/// same pair) on every input.
pub proof fn lemma_inverse_of_transform(s: Seq<u8>)
    requires
        s.len() <= usize::MAX,
    ensures
        spec_inverse(spec_transform(s).0, spec_transform(s).1) == Some(s),
{
    let n = s.len() as int;
    if n == 0 {
        assert(spec_transform(s).0 =~= s);
    } else {
        let p = spec_rotation_sort(s);
        lemma_rotation_sort_exists(s);
        lemma_text_row(s, p);
        assert(rotation(s, 0) =~= s);
        lemma_inverse_of_bwt_pair(s, spec_transform(s).0, spec_transform(s).1);
    }
}

/// Verify that a BWT round-trip produces the original data.
///
/// Returns `Ok(())` if the round-trip succeeds, `Err((original, recovered))`
/// otherwise (`recovered` is empty when the inverse refuses its input); the
/// round trip always succeeds.
pub fn verify_roundtrip(data: &[u8]) -> (r: Result<(), (Vec<u8>, Vec<u8>)>)
    ensures
        r is Ok,
{
    let len = data.len();
    let (bwt, idx) = transform(data);
    proof {
        assert(data@.len() == len);
        lemma_inverse_of_transform(data@);
    }
    match inverse(bwt.as_slice(), idx) {
        Some(recovered) => {
            if bytes_eq(recovered.as_slice(), data) {
                Ok(())
            } else {
                Err((slice_to_vec(data), recovered))
            }
        },
        None => Err((slice_to_vec(data), Vec::new())),
    }
}

} // verus!
