//! Lexicographic order on byte strings, and sorted permutations of `0..n`
//! under a strict total order on positions.

use vstd::prelude::*;
use vstd::set_lib::*;
use vstd::relations::injective_on;

verus! {

/// Strict lexicographic order on byte strings, in which a proper prefix
/// sorts before every longer string that it starts.
pub open spec fn lex_lt(a: Seq<u8>, b: Seq<u8>) -> bool
    decreases a.len(),
{
    if a.len() == 0 {
        b.len() > 0
    } else if b.len() == 0 {
        false
    } else if a[0] != b[0] {
        a[0] < b[0]
    } else {
        lex_lt(a.drop_first(), b.drop_first())
    }
}

/// No string sorts before itself.
pub proof fn lemma_lex_irreflexive(a: Seq<u8>)
    ensures
        !lex_lt(a, a),
    decreases a.len(),
{
    if a.len() > 0 {
        lemma_lex_irreflexive(a.drop_first());
    }
}

/// The lexicographic order is transitive.
pub proof fn lemma_lex_transitive(a: Seq<u8>, b: Seq<u8>, c: Seq<u8>)
    requires
        lex_lt(a, b),
        lex_lt(b, c),
    ensures
        lex_lt(a, c),
    decreases a.len(),
{
    if a.len() > 0 && b.len() > 0 && c.len() > 0 && a[0] == b[0] && b[0] == c[0] {
        lemma_lex_transitive(a.drop_first(), b.drop_first(), c.drop_first());
    }
}

/// Of two different strings, one sorts before the other.
pub proof fn lemma_lex_total(a: Seq<u8>, b: Seq<u8>)
    requires
        a != b,
    ensures
        lex_lt(a, b) || lex_lt(b, a),
    decreases a.len(),
{
    if a.len() == 0 && b.len() == 0 {
        assert(a =~= b);
    }
    if a.len() > 0 && b.len() > 0 && a[0] == b[0] {
        if a.drop_first() == b.drop_first() {
            assert(a =~= b) by {
                assert(a.len() == a.drop_first().len() + 1);
                assert(b.len() == b.drop_first().len() + 1);
                assert forall|i: int| 0 <= i < a.len() implies a[i] == b[i] by {
                    if i > 0 {
                        assert(a[i] == a.drop_first()[i - 1]);
                        assert(b[i] == b.drop_first()[i - 1]);
                    }
                }
            }
        }
        lemma_lex_total(a.drop_first(), b.drop_first());
    }
}

/// Two strings never sort before each other.
pub proof fn lemma_lex_asymmetric(a: Seq<u8>, b: Seq<u8>)
    requires
        lex_lt(a, b),
    ensures
        !lex_lt(b, a),
{
    if lex_lt(b, a) {
        lemma_lex_transitive(a, b, a);
        lemma_lex_irreflexive(a);
    }
}

/// Comparing `a1 + b1` with `a2 + b2`, where each `a` holds at most `k` bytes
/// and is followed by nothing unless it holds exactly `k`: the first parts
/// decide, and the second parts break a tie.
pub proof fn lemma_lex_blocks(a1: Seq<u8>, b1: Seq<u8>, a2: Seq<u8>, b2: Seq<u8>, k: int)
    requires
        a1.len() <= k,
        a2.len() <= k,
        a1.len() < k ==> b1.len() == 0,
        a2.len() < k ==> b2.len() == 0,
    ensures
        lex_lt(a1 + b1, a2 + b2) == (lex_lt(a1, a2) || (a1 == a2 && lex_lt(b1, b2))),
        (a1 + b1 == a2 + b2) == (a1 == a2 && b1 == b2),
    decreases a1.len(),
{
    if a1.len() == 0 {
        if k > 0 {
            assert(a1 + b1 =~= a1);
            if a2.len() == 0 {
                assert(a2 + b2 =~= a2);
                assert(a1 =~= a2);
            }
        } else {
            assert(a1 + b1 =~= b1);
            assert(a2 + b2 =~= b2);
            assert(a1 =~= a2);
        }
    } else if a2.len() == 0 {
        assert(a2 + b2 =~= a2);
        assert((a1 + b1).len() > 0);
    } else {
        let x = a1 + b1;
        let y = a2 + b2;
        assert(x[0] == a1[0]);
        assert(y[0] == a2[0]);
        assert(x.drop_first() =~= a1.drop_first() + b1);
        assert(y.drop_first() =~= a2.drop_first() + b2);
        lemma_lex_blocks(a1.drop_first(), b1, a2.drop_first(), b2, k - 1);
        if a1[0] == a2[0] {
            if a1.drop_first() == a2.drop_first() {
                assert(a1 =~= a2) by {
                    assert forall|i: int| 0 <= i < a1.len() implies a1[i] == a2[i] by {
                        if i > 0 {
                            assert(a1[i] == a1.drop_first()[i - 1]);
                        }
                    }
                }
            }
            if x == y {
                assert(x.drop_first() == y.drop_first());
            }
            if a1 == a2 && b1 == b2 {
                assert(x == y);
            }
        } else {
            assert(x != y);
            assert(a1 != a2);
        }
    }
}

/// The first `m` bytes of a string (all of it, if it is shorter).
pub open spec fn first_bytes(a: Seq<u8>, m: int) -> Seq<u8> {
    if m < a.len() {
        a.take(m)
    } else {
        a
    }
}

/// Strings whose first `m` bytes compare as lower compare as lower.
pub proof fn lemma_lex_first_bytes(a: Seq<u8>, b: Seq<u8>, m: int)
    requires
        m >= 0,
        lex_lt(first_bytes(a, m), first_bytes(b, m)),
    ensures
        lex_lt(a, b),
    decreases m,
{
    let pa = first_bytes(a, m);
    let pb = first_bytes(b, m);
    if m > 0 && a.len() > 0 && b.len() > 0 && pa[0] == pb[0] {
        assert(pa.drop_first() =~= first_bytes(a.drop_first(), m - 1));
        assert(pb.drop_first() =~= first_bytes(b.drop_first(), m - 1));
        lemma_lex_first_bytes(a.drop_first(), b.drop_first(), m - 1);
    } else if m == 0 {
        assert(pa.len() == 0);
        assert(pb.len() == 0);
    }
}

/// Past a common prefix of length `i`, two strings compare as their rests do.
pub proof fn lemma_lex_skip(a: Seq<u8>, b: Seq<u8>, i: int)
    requires
        0 <= i <= a.len(),
        i <= b.len(),
        forall|t: int| 0 <= t < i ==> a[t] == b[t],
    ensures
        lex_lt(a, b) == lex_lt(a.skip(i), b.skip(i)),
    decreases i,
{
    if i == 0 {
        assert(a.skip(0) =~= a);
        assert(b.skip(0) =~= b);
    } else {
        assert(a[0] == b[0]);
        lemma_lex_skip(a.drop_first(), b.drop_first(), i - 1);
        assert(a.drop_first().skip(i - 1) =~= a.skip(i));
        assert(b.drop_first().skip(i - 1) =~= b.skip(i));
    }
}

/// `a` and `b` agree on their first `t` bytes, and then `a` either ends
/// while `b` goes on, or holds the smaller byte.
pub open spec fn lex_lt_at(a: Seq<u8>, b: Seq<u8>, t: int) -> bool {
    &&& 0 <= t <= a.len()
    &&& t <= b.len()
    &&& forall|i: int| 0 <= i < t ==> a[i] == b[i]
    &&& ((t < a.len() && t < b.len() && a[t] < b[t]) || (t == a.len() && t < b.len()))
}

/// A first difference (or a proper prefix) orders two strings.
pub proof fn lemma_lex_from_witness(a: Seq<u8>, b: Seq<u8>, t: int)
    requires
        lex_lt_at(a, b, t),
    ensures
        lex_lt(a, b),
{
    lemma_lex_skip(a, b, t);
    if t < a.len() {
        assert(a.skip(t)[0] == a[t]);
        assert(b.skip(t)[0] == b[t]);
    } else {
        assert(a.skip(t).len() == 0);
    }
}

/// Two ordered strings have a first difference, or the first is a proper
/// prefix of the second.
pub proof fn lemma_lex_witness(a: Seq<u8>, b: Seq<u8>) -> (t: int)
    requires
        lex_lt(a, b),
    ensures
        lex_lt_at(a, b, t),
    decreases a.len(),
{
    if a.len() == 0 || a[0] != b[0] {
        0
    } else {
        let t0 = lemma_lex_witness(a.drop_first(), b.drop_first());
        assert forall|i: int| 0 <= i < t0 + 1 implies a[i] == b[i] by {
            if i > 0 {
                assert(a[i] == a.drop_first()[i - 1]);
                assert(b[i] == b.drop_first()[i - 1]);
            }
        }
        assert(a[t0 + 1] == a.drop_first()[t0] || t0 + 1 == a.len());
        if t0 + 1 < a.len() {
            assert(a[t0 + 1] == a.drop_first()[t0]);
            if t0 + 1 < b.len() {
                assert(b[t0 + 1] == b.drop_first()[t0]);
            }
        }
        t0 + 1
    }
}

/// Compare two byte strings in lexicographic order.
pub fn bytes_lt(a: &[u8], b: &[u8]) -> (r: bool)
    ensures
        r == lex_lt(a@, b@),
{
    let mut i: usize = 0;
    while i < a.len() && i < b.len()
        invariant
            0 <= i <= a@.len(),
            i <= b@.len(),
            forall|t: int| 0 <= t < i ==> a@[t] == b@[t],
        decreases a@.len() - i,
    {
        if a[i] != b[i] {
            proof {
                lemma_lex_skip(a@, b@, i as int);
                assert(a@.skip(i as int)[0] == a@[i as int]);
                assert(b@.skip(i as int)[0] == b@[i as int]);
            }
            return a[i] < b[i];
        }
        i = i + 1;
    }
    proof {
        lemma_lex_skip(a@, b@, i as int);
        if i == a@.len() {
            assert(a@.skip(i as int).len() == 0);
        } else {
            assert(b@.skip(i as int).len() == 0);
            assert(a@.skip(i as int).len() > 0);
        }
    }
    a.len() < b.len()
}

/// Whether two byte strings are equal.
pub fn bytes_eq(a: &[u8], b: &[u8]) -> (r: bool)
    ensures
        r == (a@ == b@),
{
    if a.len() != b.len() {
        return false;
    }
    let mut i: usize = 0;
    while i < a.len()
        invariant
            a@.len() == b@.len(),
            0 <= i <= a@.len(),
            forall|t: int| 0 <= t < i ==> a@[t] == b@[t],
        decreases a@.len() - i,
    {
        if a[i] != b[i] {
            return false;
        }
        i = i + 1;
    }
    assert(a@ =~= b@);
    true
}

/// `lt` is a strict total order on the positions `0..n`.
pub open spec fn strict_total_on(lt: spec_fn(int, int) -> bool, n: int) -> bool {
    &&& forall|x: int| 0 <= x < n ==> !#[trigger] lt(x, x)
    &&& forall|x: int, y: int, z: int|
        0 <= x < n && 0 <= y < n && 0 <= z < n && #[trigger] lt(x, y) && #[trigger] lt(y, z)
            ==> lt(x, z)
    &&& forall|x: int, y: int| 0 <= x < n && 0 <= y < n && x != y ==> #[trigger] lt(x, y) || #[trigger] lt(y, x)
}

/// `p` lists the positions `0..n`, in increasing order under `lt`.
pub open spec fn sorted_permutation(p: Seq<usize>, n: int, lt: spec_fn(int, int) -> bool) -> bool {
    &&& p.len() == n
    &&& forall|i: int| 0 <= i < n ==> #[trigger] p[i] < n
    &&& forall|i: int, j: int| 0 <= i < j < n ==> lt(#[trigger] p[i] as int, #[trigger] p[j] as int)
}

/// No entry of `p` occurs twice.
pub open spec fn distinct(p: Seq<usize>) -> bool {
    forall|i: int, j: int| 0 <= i < p.len() && 0 <= j < p.len() && i != j ==> #[trigger] p[i] != #[trigger] p[j]
}

/// `x` occurs somewhere in `p`.
pub open spec fn occurs(p: Seq<usize>, x: int) -> bool {
    exists|i: int| 0 <= i < p.len() && p[i] == x
}

/// The positions that sort before `x`.
pub open spec fn below(n: int, lt: spec_fn(int, int) -> bool, x: int) -> Set<int> {
    Set::new(|y: int| 0 <= y < n && lt(y, x))
}

/// A sorted permutation holds no position twice.
pub proof fn lemma_sorted_permutation_distinct(p: Seq<usize>, n: int, lt: spec_fn(int, int) -> bool)
    requires
        strict_total_on(lt, n),
        sorted_permutation(p, n, lt),
    ensures
        forall|i: int, j: int| 0 <= i < n && 0 <= j < n && i != j ==> #[trigger] p[i] != #[trigger] p[j],
{
    assert forall|i: int, j: int| 0 <= i < n && 0 <= j < n && i != j implies #[trigger] p[i] != #[trigger] p[j] by {
        if i < j {
            assert(lt(p[i] as int, p[j] as int));
        } else {
            assert(lt(p[j] as int, p[i] as int));
        }
    }
}

/// A sequence of `n` distinct positions below `n` holds every one of them.
pub proof fn lemma_distinct_covers(p: Seq<usize>, n: int)
    requires
        p.len() == n,
        forall|i: int| 0 <= i < n ==> #[trigger] p[i] < n,
        forall|i: int, j: int| 0 <= i < n && 0 <= j < n && i != j ==> #[trigger] p[i] != #[trigger] p[j],
    ensures
        forall|x: int| 0 <= x < n ==> #[trigger] occurs(p, x),
{
    let f = |i: int| p[i] as int;
    let dom = set_int_range(0, n);
    let img = dom.map(f);
    lemma_int_range(0, n);
    assert(injective_on(f, dom));
    lemma_map_size(dom, img, f);
    assert(img.subset_of(dom));
    lemma_subset_equality(img, dom);
    assert forall|x: int| 0 <= x < n implies #[trigger] occurs(p, x) by {
        assert(dom.contains(x));
        assert(img.contains(x));
    }
}

/// Every position `0..n` occurs in a sorted permutation.
pub proof fn lemma_sorted_permutation_covers(p: Seq<usize>, n: int, lt: spec_fn(int, int) -> bool)
    requires
        strict_total_on(lt, n),
        sorted_permutation(p, n, lt),
    ensures
        forall|x: int| 0 <= x < n ==> #[trigger] occurs(p, x),
{
    lemma_sorted_permutation_distinct(p, n, lt);
    lemma_distinct_covers(p, n);
}

/// The entry at position `i` of a sorted permutation has exactly `i`
/// positions below it.
pub proof fn lemma_sorted_permutation_rank(p: Seq<usize>, n: int, lt: spec_fn(int, int) -> bool, i: int)
    requires
        strict_total_on(lt, n),
        sorted_permutation(p, n, lt),
        0 <= i < n,
    ensures
        below(n, lt, p[i] as int).finite(),
        below(n, lt, p[i] as int).len() == i,
{
    lemma_sorted_permutation_distinct(p, n, lt);
    lemma_sorted_permutation_covers(p, n, lt);
    let f = |j: int| p[j] as int;
    let dom = set_int_range(0, i);
    lemma_int_range(0, i);
    assert(injective_on(f, dom));
    let b = below(n, lt, p[i] as int);
    assert(dom.map(f) =~= b) by {
        assert forall|y: int| b.contains(y) implies dom.map(f).contains(y) by {
            assert(occurs(p, y));
            let j = choose|j: int| 0 <= j < n && #[trigger] p[j] == y;
            if j >= i {
                if j == i {
                } else {
                    assert(lt(p[i] as int, p[j] as int));
                }
            }
            assert(dom.contains(j));
            assert(f(j) == y);
        }
        assert forall|y: int| dom.map(f).contains(y) implies b.contains(y) by {
            let j = choose|j: int| dom.contains(j) && f(j) == y;
            assert(lt(p[j] as int, p[i] as int));
        }
    }
    lemma_map_size(dom, b, f);
}

/// At most one sequence lists `0..n` in increasing order under `lt`.
pub proof fn lemma_sorted_permutation_unique(p: Seq<usize>, q: Seq<usize>, n: int, lt: spec_fn(int, int) -> bool)
    requires
        strict_total_on(lt, n),
        sorted_permutation(p, n, lt),
        sorted_permutation(q, n, lt),
    ensures
        p == q,
{
    assert forall|i: int| 0 <= i < n implies p[i] == q[i] by {
        if p[i] != q[i] {
            lemma_sorted_permutation_rank(p, n, lt, i);
            lemma_sorted_permutation_rank(q, n, lt, i);
            let x = p[i] as int;
            let y = q[i] as int;
            if lt(x, y) {
                lemma_below_grows(n, lt, x, y);
            } else {
                assert(lt(y, x));
                lemma_below_grows(n, lt, y, x);
            }
        }
    }
    assert(p =~= q);
}

proof fn lemma_below_grows(n: int, lt: spec_fn(int, int) -> bool, x: int, y: int)
    requires
        strict_total_on(lt, n),
        0 <= x < n,
        0 <= y < n,
        lt(x, y),
        below(n, lt, y).finite(),
    ensures
        below(n, lt, x).len() < below(n, lt, y).len(),
{
    let bx = below(n, lt, x);
    let by = below(n, lt, y);
    assert(bx.insert(x).subset_of(by));
    assert(!bx.contains(x));
    lemma_len_subset(bx.insert(x), by);
    lemma_set_subset_finite(by, bx);
}

/// Where `x` goes into a sorted sequence that does not hold it.
pub open spec fn insert_index(p: Seq<usize>, x: int, lt: spec_fn(int, int) -> bool) -> int
    decreases p.len(),
{
    if p.len() == 0 {
        0
    } else if lt(x, p.last() as int) {
        insert_index(p.drop_last(), x, lt)
    } else {
        p.len() as int
    }
}

proof fn lemma_insert_index(p: Seq<usize>, m: int, n: int, x: int, lt: spec_fn(int, int) -> bool)
    requires
        strict_total_on(lt, n),
        0 <= m <= n,
        0 <= x < n,
        p.len() == m,
        forall|i: int| 0 <= i < m ==> #[trigger] p[i] < n && p[i] != x,
        forall|i: int, j: int| 0 <= i < j < m ==> lt(#[trigger] p[i] as int, #[trigger] p[j] as int),
    ensures
        0 <= insert_index(p, x, lt) <= m,
        forall|i: int| 0 <= i < insert_index(p, x, lt) ==> lt(#[trigger] p[i] as int, x),
        forall|i: int| insert_index(p, x, lt) <= i < m ==> lt(x, #[trigger] p[i] as int),
    decreases m,
{
    if m > 0 {
        let q = p.drop_last();
        lemma_insert_index(q, m - 1, n, x, lt);
        if !lt(x, p.last() as int) {
            assert(lt(p.last() as int, x));
            assert forall|i: int| 0 <= i < m implies lt(#[trigger] p[i] as int, x) by {
                if i < m - 1 {
                    assert(lt(p[i] as int, p[m - 1] as int));
                }
            }
        } else {
            assert forall|i: int| insert_index(p, x, lt) <= i < m implies lt(x, #[trigger] p[i] as int) by {
                if i < m - 1 {
                    assert(q[i] == p[i]);
                }
            }
            assert forall|i: int| 0 <= i < insert_index(p, x, lt) implies lt(#[trigger] p[i] as int, x) by {
                assert(q[i] == p[i]);
            }
        }
    }
}

proof fn lemma_sorted_prefix_exists(n: int, lt: spec_fn(int, int) -> bool, m: int) -> (p: Seq<usize>)
    requires
        strict_total_on(lt, n),
        0 <= m <= n,
        n <= usize::MAX + 1,
    ensures
        p.len() == m,
        forall|i: int| 0 <= i < m ==> #[trigger] p[i] < m,
        forall|i: int, j: int| 0 <= i < j < m ==> lt(#[trigger] p[i] as int, #[trigger] p[j] as int),
    decreases m,
{
    if m == 0 {
        Seq::empty()
    } else {
        let q = lemma_sorted_prefix_exists(n, lt, m - 1);
        let x = m - 1;
        lemma_insert_index(q, m - 1, n, x, lt);
        let k = insert_index(q, x, lt);
        let p = q.insert(k, x as usize);
        assert forall|i: int, j: int| 0 <= i < j < m implies lt(#[trigger] p[i] as int, #[trigger] p[j] as int) by {
            if j < k {
                assert(p[i] == q[i] && p[j] == q[j]);
            } else if j == k {
                assert(p[i] == q[i]);
            } else if i < k {
                assert(p[i] == q[i] && p[j] == q[j - 1]);
                assert(lt(q[i] as int, x));
                assert(lt(x, q[j - 1] as int));
            } else if i == k {
                assert(p[j] == q[j - 1]);
            } else {
                assert(p[i] == q[i - 1] && p[j] == q[j - 1]);
            }
        }
        assert forall|i: int| 0 <= i < m implies #[trigger] p[i] < m by {
            if i < k {
                assert(p[i] == q[i]);
            } else if i > k {
                assert(p[i] == q[i - 1]);
            }
        }
        p
    }
}

/// Every strict total order on `0..n` has a sorted permutation.
pub proof fn lemma_sorted_permutation_exists(n: int, lt: spec_fn(int, int) -> bool)
    requires
        strict_total_on(lt, n),
        0 <= n <= usize::MAX + 1,
    ensures
        exists|p: Seq<usize>| sorted_permutation(p, n, lt),
{
    let p = lemma_sorted_prefix_exists(n, lt, n);
    assert(sorted_permutation(p, n, lt));
}

} // verus!
