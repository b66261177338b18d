//! Cyclic rotations of a text, the order of the rotation table, and sorting
//! the rotations by prefix doubling.

use vstd::prelude::*;
use vstd::arithmetic::div_mod::{lemma_add_mod_noop_right, lemma_mod_add_multiples_vanish, lemma_small_mod};
use crate::order::{
    distinct, lemma_lex_blocks, lemma_lex_from_witness, lemma_lex_irreflexive, lemma_lex_total, lemma_lex_transitive,
    lemma_lex_witness, lemma_sorted_permutation_exists, lemma_sorted_permutation_unique, lex_lt, lex_lt_at,
    sorted_permutation, strict_total_on,
};
use crate::ranks::{dense_ranks, lemma_byte_ranks, lemma_dense_ranks, lemma_pair_ranks, ranks_match};
use crate::sort::{
    key_eq, key_le, key_lt, lemma_all_below_multiset, lemma_no_duplicates_multiset, merge_sort, PositionOrder,
    RankPairs,
};

verus! {

/// The cyclic rotation of `s` that starts at position `i`.
pub open spec fn rotation(s: Seq<u8>, i: int) -> Seq<u8> {
    s.subrange(i, s.len() as int) + s.subrange(0, i)
}

/// Positions ordered by their rotations; equal rotations keep the order
/// of their start positions.
pub open spec fn rotation_order(s: Seq<u8>) -> spec_fn(int, int) -> bool {
    |x: int, y: int| lex_lt(rotation(s, x), rotation(s, y)) || (rotation(s, x) == rotation(s, y) && x < y)
}

/// The rotation starts of `s` in sorted order: the rows of the rotation
/// table.
pub open spec fn spec_rotation_sort(s: Seq<u8>) -> Seq<usize> {
    choose|p: Seq<usize>| sorted_permutation(p, s.len() as int, rotation_order(s))
}

/// The last byte of each row `p` of the rotation table.
pub open spec fn last_column(s: Seq<u8>, p: Seq<usize>) -> Seq<u8> {
    Seq::new(p.len(), |i: int| rotation(s, p[i] as int)[s.len() - 1])
}

/// The start of the rotation one position back from `a`, cyclically.
pub open spec fn pred(n: int, a: int) -> int {
    if a == 0 {
        n - 1
    } else {
        a - 1
    }
}

/// The start of the rotation one position on from `x`, cyclically.
pub open spec fn succ(n: int, x: int) -> int {
    if x == n - 1 {
        0
    } else {
        x + 1
    }
}

/// The rotation order is a strict total order on the rotation starts.
pub proof fn lemma_rotation_order_total(s: Seq<u8>)
    ensures
        strict_total_on(rotation_order(s), s.len() as int),
{
    let n = s.len() as int;
    let lt = rotation_order(s);
    assert forall|x: int| 0 <= x < n implies !#[trigger] lt(x, x) by {
        lemma_lex_irreflexive(rotation(s, x));
    }
    assert forall|x: int, y: int, z: int|
        0 <= x < n && 0 <= y < n && 0 <= z < n && #[trigger] lt(x, y) && #[trigger] lt(y, z)
        implies lt(x, z) by {
        let (a, b, c) = (rotation(s, x), rotation(s, y), rotation(s, z));
        if lex_lt(a, b) && lex_lt(b, c) {
            lemma_lex_transitive(a, b, c);
        }
    }
    assert forall|x: int, y: int| 0 <= x < n && 0 <= y < n && x != y
        implies #[trigger] lt(x, y) || #[trigger] lt(y, x) by {
        if rotation(s, x) != rotation(s, y) {
            lemma_lex_total(rotation(s, x), rotation(s, y));
        }
    }
}

/// A text has only one rotation table.
pub proof fn lemma_rotation_sort_unique(s: Seq<u8>, p: Seq<usize>)
    requires
        sorted_permutation(p, s.len() as int, rotation_order(s)),
    ensures
        spec_rotation_sort(s) == p,
{
    lemma_rotation_order_total(s);
    let c = spec_rotation_sort(s);
    assert(sorted_permutation(c, s.len() as int, rotation_order(s)));
    lemma_sorted_permutation_unique(c, p, s.len() as int, rotation_order(s));
}

/// Every text that fits in memory has a rotation table.
pub proof fn lemma_rotation_sort_exists(s: Seq<u8>)
    requires
        s.len() <= usize::MAX,
    ensures
        sorted_permutation(spec_rotation_sort(s), s.len() as int, rotation_order(s)),
{
    lemma_rotation_order_total(s);
    lemma_sorted_permutation_exists(s.len() as int, rotation_order(s));
}

/// Byte `i` of the rotation at `x` is byte `(x + i) mod n` of the text.
pub proof fn lemma_rotation_index(s: Seq<u8>, x: int, i: int)
    requires
        0 <= x < s.len(),
        0 <= i < s.len(),
    ensures
        rotation(s, x).len() == s.len(),
        rotation(s, x)[i] == s[(x + i) % (s.len() as int)],
{
    let n = s.len() as int;
    if x + i < n {
        lemma_small_mod((x + i) as nat, n as nat);
    } else {
        lemma_mod_add_multiples_vanish(x + i - n, n);
        lemma_small_mod((x + i - n) as nat, n as nat);
    }
}

/// The rotation one position back starts with the last byte of the
/// rotation at `a`, followed by the rest of it.
pub proof fn lemma_rotation_pred(s: Seq<u8>, a: int)
    requires
        0 <= a < s.len(),
    ensures
        rotation(s, a).len() == s.len(),
        rotation(s, a)[0] == s[a],
        rotation(s, a)[s.len() - 1] == s[pred(s.len() as int, a)],
        0 <= pred(s.len() as int, a) < s.len(),
        succ(s.len() as int, pred(s.len() as int, a)) == a,
        rotation(s, pred(s.len() as int, a)) == seq![rotation(s, a)[s.len() - 1]] + rotation(s, a).drop_last(),
{
    let n = s.len() as int;
    let r = rotation(s, a);
    let b = pred(n, a);
    assert(rotation(s, b) =~= seq![r[n - 1]] + r.drop_last());
}

/// Equal rotations have equal rotations one position back.
pub proof fn lemma_rotation_pred_congruent(s: Seq<u8>, x: int, z: int)
    requires
        0 <= x < s.len(),
        0 <= z < s.len(),
        rotation(s, x) == rotation(s, z),
    ensures
        rotation(s, pred(s.len() as int, x)) == rotation(s, pred(s.len() as int, z)),
{
    lemma_rotation_pred(s, x);
    lemma_rotation_pred(s, z);
}

/// Of two rotations that end in the same byte, the rotations one position
/// back compare as they do.
pub proof fn lemma_rotation_shift(s: Seq<u8>, x: int, a: int)
    requires
        0 <= x < s.len(),
        0 <= a < s.len(),
        s[pred(s.len() as int, x)] == s[pred(s.len() as int, a)],
    ensures
        lex_lt(rotation(s, pred(s.len() as int, x)), rotation(s, pred(s.len() as int, a))) == lex_lt(
            rotation(s, x),
            rotation(s, a),
        ),
        (rotation(s, pred(s.len() as int, x)) == rotation(s, pred(s.len() as int, a))) == (rotation(s, x)
            == rotation(s, a)),
{
    let n = s.len() as int;
    lemma_rotation_pred(s, x);
    lemma_rotation_pred(s, a);
    let rx = rotation(s, x);
    let ra = rotation(s, a);
    let c = rx[n - 1];
    let dx = rx.drop_last();
    let da = ra.drop_last();
    lemma_lex_blocks(seq![c], dx, seq![c], da, 1);
    lemma_lex_irreflexive(seq![c]);
    assert(rx =~= dx + seq![c]);
    assert(ra =~= da + seq![c]);
    lemma_lex_blocks(dx, seq![c], da, seq![c], n - 1);
}

/// Whether the rotation of `data` that starts at `a` is `data` itself.
pub fn rotation_is_text(data: &[u8], a: usize) -> (b: bool)
    requires
        a < data@.len(),
    ensures
        b == (rotation(data@, a as int) == data@),
{
    let n = data.len();
    let ghost r = rotation(data@, a as int);
    let mut i: usize = 0;
    while i < n
        invariant
            n == data@.len(),
            r == rotation(data@, a as int),
            r.len() == n,
            a < n,
            0 <= i <= n,
            forall|j: int| 0 <= j < i ==> r[j] == data@[j],
        decreases n - i,
    {
        let j = if i < n - a {
            a + i
        } else {
            i - (n - a)
        };
        assert(r[i as int] == data@[j as int]);
        if data[j] != data[i] {
            return false;
        }
        i = i + 1;
    }
    assert(r =~= data@);
    true
}

/// The `k` bytes of the text that start at `x`, read cyclically.
spec fn cpref(s: Seq<u8>, x: int, k: int) -> Seq<u8> {
    Seq::new(k as nat, |i: int| s[(x + i) % (s.len() as int)])
}

/// Positions keyed by the `k` bytes that start there, read cyclically.
spec fn cyclic_key(s: Seq<u8>, k: int) -> spec_fn(int) -> Seq<u8> {
    |x: int| cpref(s, x, k)
}

proof fn lemma_cpref_split(s: Seq<u8>, x: int, k: int)
    requires
        0 <= x < s.len(),
        k >= 0,
    ensures
        cpref(s, x, 2 * k) == cpref(s, x, k) + cpref(s, (x + k) % (s.len() as int), k),
        0 <= (x + k) % (s.len() as int) < s.len(),
{
    let n = s.len() as int;
    let y = (x + k) % n;
    assert forall|i: int| k <= i < 2 * k implies #[trigger] cpref(s, x, 2 * k)[i] == cpref(s, y, k)[i - k] by {
        lemma_add_mod_noop_right(i - k, x + k, n);
    }
    assert(cpref(s, x, 2 * k) =~= cpref(s, x, k) + cpref(s, y, k));
}

/// Ranks of the first `k` bytes, paired with the ranks of the next `k`
/// (read on cyclically), order the positions by their first `2k` bytes.
proof fn lemma_cyclic_pair_ranks(s: Seq<u8>, r: Seq<usize>, r2: Seq<usize>, k: int)
    requires
        ranks_match(r, cyclic_key(s, k), s.len() as int),
        k >= 1,
        s.len() >= 1,
        r2.len() == s.len(),
        forall|x: int| 0 <= x < s.len() ==> #[trigger] r2[x] == r[(x + k) % (s.len() as int)],
    ensures
        forall|x: int, y: int|
            0 <= x < s.len() && 0 <= y < s.len() ==> #[trigger] key_lt(r, r2, x, y) == lex_lt(
                cpref(s, x, 2 * k),
                cpref(s, y, 2 * k),
            ),
        forall|x: int, y: int|
            0 <= x < s.len() && 0 <= y < s.len() ==> #[trigger] key_eq(r, r2, x, y) == (cpref(s, x, 2 * k)
                == cpref(s, y, 2 * k)),
{
    let n = s.len() as int;
    let key = cyclic_key(s, k);
    let blk = |x: int| cpref(s, (x + k) % n, k);
    let key2 = cyclic_key(s, 2 * k);
    assert forall|x: int, y: int| 0 <= x < n && 0 <= y < n implies {
        &&& (#[trigger] r2[x] < #[trigger] r2[y]) == lex_lt(blk(x), blk(y))
        &&& (r2[x] == r2[y]) == (blk(x) == blk(y))
    } by {
        lemma_cpref_split(s, x, k);
        lemma_cpref_split(s, y, k);
        let x2 = (x + k) % n;
        let y2 = (y + k) % n;
        assert((r[x2] < r[y2]) == lex_lt(key(x2), key(y2)));
        assert((r[x2] == r[y2]) == (key(x2) == key(y2)));
    }
    assert forall|x: int| 0 <= x < n implies #[trigger] key2(x) == key(x) + blk(x) && key(x).len() <= k && (key(
        x,
    ).len() < k ==> blk(x).len() == 0) by {
        lemma_cpref_split(s, x, k);
    }
    lemma_pair_ranks(r, r2, key, blk, key2, n, k);
}

/// The first `m` bytes read cyclically from `x` are the first `m` bytes
/// of the rotation at `x`.
proof fn lemma_cpref_rotation(s: Seq<u8>, x: int, k: int, i: int)
    requires
        0 <= x < s.len(),
        0 <= i < k,
        i < s.len(),
    ensures
        cpref(s, x, k)[i] == rotation(s, x)[i],
{
    lemma_rotation_index(s, x, i);
}

/// Strings read cyclically that compare as lower start lower rotations.
proof fn lemma_cpref_order(s: Seq<u8>, x: int, y: int, k: int)
    requires
        0 <= x < s.len(),
        0 <= y < s.len(),
        k >= 0,
        lex_lt(cpref(s, x, k), cpref(s, y, k)),
    ensures
        lex_lt(rotation(s, x), rotation(s, y)),
{
    let n = s.len() as int;
    let cx = cpref(s, x, k);
    let cy = cpref(s, y, k);
    let rx = rotation(s, x);
    let ry = rotation(s, y);
    lemma_rotation_index(s, x, 0);
    lemma_rotation_index(s, y, 0);
    let t = lemma_lex_witness(cx, cy);
    assert(t < k);
    if t < n {
        assert forall|i: int| 0 <= i <= t implies rx[i] == cx[i] && ry[i] == cy[i] by {
            lemma_cpref_rotation(s, x, k, i);
            lemma_cpref_rotation(s, y, k, i);
        }
        assert(lex_lt_at(rx, ry, t));
        lemma_lex_from_witness(rx, ry, t);
    } else {
        assert forall|i: int| 0 <= i < n implies rx[i] == ry[i] by {
            lemma_cpref_rotation(s, x, k, i);
            lemma_cpref_rotation(s, y, k, i);
        }
        assert(rx =~= ry);
        let j = t % n;
        lemma_add_mod_noop_right(x, t, n);
        lemma_add_mod_noop_right(y, t, n);
        lemma_rotation_index(s, x, j);
        lemma_rotation_index(s, y, j);
        assert(cx[t] == rx[j]);
        assert(cy[t] == ry[j]);
    }
}

/// Once `k` covers a whole rotation, equal strings read cyclically start
/// equal rotations.
proof fn lemma_cpref_equal(s: Seq<u8>, x: int, y: int, k: int)
    requires
        0 <= x < s.len(),
        0 <= y < s.len(),
        k >= s.len(),
        cpref(s, x, k) == cpref(s, y, k),
    ensures
        rotation(s, x) == rotation(s, y),
{
    let n = s.len() as int;
    lemma_rotation_index(s, x, 0);
    lemma_rotation_index(s, y, 0);
    assert forall|i: int| 0 <= i < n implies rotation(s, x)[i] == rotation(s, y)[i] by {
        lemma_cpref_rotation(s, x, k, i);
        lemma_cpref_rotation(s, y, k, i);
    }
    assert(rotation(s, x) =~= rotation(s, y));
}

/// Sort the rotations of `data` by prefix doubling on cyclic ranks: the
/// result is the rotation table, equal rotations in order of their starts.
pub fn sort_rotations(data: &[u8]) -> (p: Vec<usize>)
    ensures
        sorted_permutation(p@, data@.len() as int, rotation_order(data@)),
{
    let n = data.len();
    let ghost s = data@;
    if n == 0 {
        return Vec::new();
    }
    let mut sa: Vec<usize> = Vec::new();
    let mut rank: Vec<usize> = Vec::new();
    let mut x: usize = 0;
    while x < n
        invariant
            n == s.len(),
            s == data@,
            0 <= x <= n,
            sa@.len() == x,
            rank@.len() == x,
            forall|t: int| 0 <= t < x ==> #[trigger] sa@[t] == t,
            forall|t: int| 0 <= t < x ==> #[trigger] rank@[t] == s[t] + 1,
        decreases n - x,
    {
        sa.push(x);
        rank.push(data[x] as usize + 1);
        x = x + 1;
    }
    let ids = sa.clone();
    assert(ids@ == sa@);
    proof {
        assert forall|x: int| 0 <= x < n implies #[trigger] (cyclic_key(s, 1))(x) == seq![s[x]] by {
            lemma_small_mod(x as nat, n as nat);
            assert(cpref(s, x, 1) =~= seq![s[x]]);
        }
        lemma_byte_ranks(s, rank@, cyclic_key(s, 1));
    }
    let ghost mut kk: int = 1;
    let mut k: usize = 1;
    while k < n
        invariant
            n == s.len(),
            s == data@,
            n >= 1,
            k >= 1,
            k < n ==> kk == k,
            k >= n ==> kk >= n,
            ranks_match(rank@, cyclic_key(s, kk), n as int),
            sa@.len() == n,
            rank@.len() == n,
            forall|t: int| 0 <= t < n ==> #[trigger] sa@[t] < n,
            distinct(sa@),
        decreases n - k,
    {
        // The rank of the next k bytes after each position, read cyclically.
        let mut second: Vec<usize> = Vec::new();
        let mut y: usize = 0;
        while y < n
            invariant
                n == s.len(),
                n >= 1,
                k < n,
                rank@.len() == n,
                0 <= y <= n,
                second@.len() == y,
                forall|t: int| 0 <= t < y ==> #[trigger] second@[t] == rank@[(t + k) % (n as int)],
            decreases n - y,
        {
            proof {
                if y + k < n {
                    lemma_small_mod((y + k) as nat, n as nat);
                } else {
                    lemma_mod_add_multiples_vanish(y + k - n, n as int);
                    lemma_small_mod((y + k - n) as nat, n as nat);
                }
            }
            if k < n - y {
                second.push(rank[y + k]);
            } else {
                second.push(rank[k - (n - y)]);
            }
            y = y + 1;
        }
        proof {
            lemma_cyclic_pair_ranks(s, rank@, second@, k as int);
        }
        // Sort by the ranks of the first k bytes, then of the next k.
        let ghost unsorted = sa@;
        let ord = RankPairs { first: &rank, second: &second };
        sa = merge_sort(&ord, sa.as_slice());
        proof {
            lemma_all_below_multiset(sa@, unsorted, n as nat);
            assert(unsorted.no_duplicates());
            lemma_no_duplicates_multiset(sa@, unsorted);
            assert forall|a: int, b: int|
                0 <= a < b < n implies key_le(rank@, second@, #[trigger] sa@[a] as int, #[trigger] sa@[b] as int) by {
                assert(ord.le(sa@[a] as int, sa@[b] as int));
            }
        }
        // Dense ranks of the first 2k bytes, handed out in sorted order.
        let dense = dense_ranks(&sa, &rank, &second);
        proof {
            lemma_dense_ranks(rank@, second@, sa@, dense@, cyclic_key(s, 2 * k), n as int);
        }
        rank = dense;
        proof {
            kk = 2 * k;
        }
        // Done once 2k bytes cover a whole rotation.
        if k >= n - k {
            k = n;
        } else {
            k = k * 2;
        }
    }
    // Order by the final ranks, equal rotations by their starts.
    let ghost unsorted = ids@;
    let ord = RankPairs { first: &rank, second: &ids };
    let p = merge_sort(&ord, ids.as_slice());
    proof {
        lemma_all_below_multiset(p@, unsorted, n as nat);
        assert(unsorted.no_duplicates());
        lemma_no_duplicates_multiset(p@, unsorted);
        assert forall|i: int, j: int| 0 <= i < j < n implies (rotation_order(s))(#[trigger] p@[i] as int, #[trigger] p@[j] as int) by {
            let x = p@[i] as int;
            let y = p@[j] as int;
            assert(ord.le(x, y));
            assert(x != y);
            if rank@[x] < rank@[y] {
                lemma_cpref_order(s, x, y, kk);
            } else {
                assert(rank@[x] == rank@[y]);
                lemma_cpref_equal(s, x, y, kk);
            }
        }
    }
    p
}

} // verus!
