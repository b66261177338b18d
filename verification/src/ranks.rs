//! Ranks of positions by strings, and their refinement by prefix doubling:
//! positions sorted by a pair of ranks get dense ranks that order them by
//! the concatenated strings.

use vstd::prelude::*;
use crate::order::{
    distinct, lemma_distinct_covers, lemma_lex_asymmetric, lemma_lex_blocks, lemma_lex_irreflexive, lex_lt, occurs,
};
use crate::sort::{key_eq, key_le, key_lt};

verus! {

/// `r` ranks the positions `0..n` by the strings `key(x)`: the ranks are
/// ordered and equal exactly as those strings are.
pub open spec fn ranks_match(r: Seq<usize>, key: spec_fn(int) -> Seq<u8>, n: int) -> bool {
    &&& r.len() == n
    &&& forall|x: int, y: int|
        0 <= x < n && 0 <= y < n ==> {
            &&& (#[trigger] r[x] < #[trigger] r[y]) == lex_lt(key(x), key(y))
            &&& (r[x] == r[y]) == (key(x) == key(y))
        }
}

/// A byte plus one ranks its position by the one-byte string of it.
pub proof fn lemma_byte_ranks(s: Seq<u8>, r: Seq<usize>, key: spec_fn(int) -> Seq<u8>)
    requires
        r.len() == s.len(),
        forall|x: int| 0 <= x < s.len() ==> #[trigger] r[x] == s[x] + 1,
        forall|x: int| 0 <= x < s.len() ==> #[trigger] key(x) == seq![s[x]],
    ensures
        ranks_match(r, key, s.len() as int),
{
    let n = s.len() as int;
    assert forall|x: int, y: int| 0 <= x < n && 0 <= y < n implies {
        &&& (#[trigger] r[x] < #[trigger] r[y]) == lex_lt(key(x), key(y))
        &&& (r[x] == r[y]) == (key(x) == key(y))
    } by {
        let a = key(x);
        let b = key(y);
        assert(a == seq![s[x]]);
        assert(b == seq![s[y]]);
        lemma_lex_irreflexive(a.drop_first());
        assert(a.drop_first() =~= b.drop_first());
        if a == b {
            assert(a[0] == b[0]);
        }
    }
}

/// Ranks by a first block of at most `k` bytes, paired with ranks by the
/// block after it (empty unless the first one is full), order positions by
/// the two blocks together.
pub proof fn lemma_pair_ranks(
    r: Seq<usize>,
    r2: Seq<usize>,
    key: spec_fn(int) -> Seq<u8>,
    blk: spec_fn(int) -> Seq<u8>,
    key2: spec_fn(int) -> Seq<u8>,
    n: int,
    k: int,
)
    requires
        ranks_match(r, key, n),
        ranks_match(r2, blk, n),
        forall|x: int|
            0 <= x < n ==> #[trigger] key2(x) == key(x) + blk(x) && key(x).len() <= k && (key(x).len() < k
                ==> blk(x).len() == 0),
    ensures
        forall|x: int, y: int|
            0 <= x < n && 0 <= y < n ==> #[trigger] key_lt(r, r2, x, y) == lex_lt(key2(x), key2(y)),
        forall|x: int, y: int|
            0 <= x < n && 0 <= y < n ==> #[trigger] key_eq(r, r2, x, y) == (key2(x) == key2(y)),
{
    assert forall|x: int, y: int| 0 <= x < n && 0 <= y < n implies {
        &&& key_lt(r, r2, x, y) == lex_lt(key2(x), key2(y))
        &&& key_eq(r, r2, x, y) == (key2(x) == key2(y))
    } by {
        assert(key2(x) == key(x) + blk(x));
        assert(key2(y) == key(y) + blk(y));
        lemma_lex_blocks(key(x), blk(x), key(y), blk(y), k);
        assert((r[x] < r[y]) == lex_lt(key(x), key(y)));
        assert((r[x] == r[y]) == (key(x) == key(y)));
        assert((r2[x] < r2[y]) == lex_lt(blk(x), blk(y)));
        assert((r2[x] == r2[y]) == (blk(x) == blk(y)));
    }
}

/// Dense ranks handed out along an order sorted by a pair of ranks rank
/// the positions by the strings that the pair agrees with.
pub proof fn lemma_dense_ranks(
    r: Seq<usize>,
    r2: Seq<usize>,
    sa: Seq<usize>,
    t: Seq<usize>,
    key: spec_fn(int) -> Seq<u8>,
    n: int,
)
    requires
        r.len() == n,
        r2.len() == n,
        t.len() == n,
        sa.len() == n,
        forall|i: int| 0 <= i < n ==> #[trigger] sa[i] < n,
        distinct(sa),
        forall|i: int, j: int| 0 <= i < j < n ==> key_le(r, r2, #[trigger] sa[i] as int, #[trigger] sa[j] as int),
        forall|x: int, y: int| 0 <= x < n && 0 <= y < n ==> #[trigger] key_lt(r, r2, x, y) == lex_lt(key(x), key(y)),
        forall|x: int, y: int| 0 <= x < n && 0 <= y < n ==> #[trigger] key_eq(r, r2, x, y) == (key(x) == key(y)),
        forall|i: int, j: int|
            0 <= i <= j < n ==> {
                &&& (key_eq(r, r2, #[trigger] sa[i] as int, #[trigger] sa[j] as int) ==> t[sa[i] as int]
                    == t[sa[j] as int])
                &&& (key_lt(r, r2, sa[i] as int, sa[j] as int) ==> t[sa[i] as int] < t[sa[j] as int])
            },
        forall|i: int| 0 <= i < n ==> t[#[trigger] sa[i] as int] >= 1,
    ensures
        ranks_match(t, key, n),
        forall|x: int| 0 <= x < n ==> #[trigger] t[x] >= 1,
{
    lemma_distinct_covers(sa, n);
    assert forall|x: int| 0 <= x < n implies #[trigger] t[x] >= 1 by {
        assert(occurs(sa, x));
        let i = choose|i: int| 0 <= i < sa.len() && sa[i] == x;
        assert(t[sa[i] as int] >= 1);
    }
    assert forall|x: int, y: int| 0 <= x < n && 0 <= y < n implies {
        &&& (#[trigger] t[x] < #[trigger] t[y]) == lex_lt(key(x), key(y))
        &&& (t[x] == t[y]) == (key(x) == key(y))
    } by {
        assert(occurs(sa, x));
        assert(occurs(sa, y));
        let i = choose|i: int| 0 <= i < sa.len() && sa[i] == x;
        let j = choose|j: int| 0 <= j < sa.len() && sa[j] == y;
        assert(key_lt(r, r2, x, y) == lex_lt(key(x), key(y)));
        assert(key_eq(r, r2, x, y) == (key(x) == key(y)));
        assert(key_lt(r, r2, y, x) == lex_lt(key(y), key(x)));
        if i <= j {
            if i < j {
                assert(key_le(r, r2, sa[i] as int, sa[j] as int));
            }
            assert(key_eq(r, r2, sa[i] as int, sa[j] as int) ==> t[sa[i] as int] == t[sa[j] as int]);
            assert(key_lt(r, r2, sa[i] as int, sa[j] as int) ==> t[sa[i] as int] < t[sa[j] as int]);
        } else {
            assert(key_le(r, r2, sa[j] as int, sa[i] as int));
            assert(key_eq(r, r2, sa[j] as int, sa[i] as int) ==> t[sa[j] as int] == t[sa[i] as int]);
            assert(key_lt(r, r2, sa[j] as int, sa[i] as int) ==> t[sa[j] as int] < t[sa[i] as int]);
            if key_lt(r, r2, y, x) {
                lemma_lex_asymmetric(key(y), key(x));
            }
        }
    }
}

/// Hand out dense ranks, from 1, along the positions `sa` sorted by the
/// rank pairs `(first, second)`: equal pairs get equal ranks, and each new
/// pair the next rank.
pub fn dense_ranks(sa: &Vec<usize>, first: &Vec<usize>, second: &Vec<usize>) -> (t: Vec<usize>)
    requires
        sa@.len() >= 1,
        first@.len() == sa@.len(),
        second@.len() == sa@.len(),
        forall|i: int| 0 <= i < sa@.len() ==> #[trigger] sa@[i] < sa@.len(),
        distinct(sa@),
        forall|a: int, b: int|
            0 <= a < b < sa@.len() ==> key_le(first@, second@, #[trigger] sa@[a] as int, #[trigger] sa@[b] as int),
    ensures
        t@.len() == sa@.len(),
        forall|a: int| 0 <= a < sa@.len() ==> 1 <= #[trigger] t@[sa@[a] as int] <= a + 1,
        forall|a: int, b: int|
            0 <= a <= b < sa@.len() ==> {
                &&& (key_eq(first@, second@, #[trigger] sa@[a] as int, #[trigger] sa@[b] as int) ==> t@[sa@[a] as int]
                    == t@[sa@[b] as int])
                &&& (key_lt(first@, second@, sa@[a] as int, sa@[b] as int) ==> t@[sa@[a] as int]
                    < t@[sa@[b] as int])
                &&& t@[sa@[b] as int] - t@[sa@[a] as int] <= b - a
            },
{
    let n = sa.len();
    let ghost r1 = first@;
    let ghost r2 = second@;
    let mut tmp: Vec<usize> = Vec::with_capacity(n);
    let mut z: usize = 0;
    while z < n
        invariant
            0 <= z <= n,
            tmp@.len() == z,
        decreases n - z,
    {
        tmp.push(0);
        z = z + 1;
    }
    let top = sa[0];
    tmp.set(top, 1);
    let mut i: usize = 1;
    while i < n
        invariant
            n == sa@.len(),
            1 <= i <= n,
            r1 == first@,
            r2 == second@,
            r1.len() == n,
            r2.len() == n,
            tmp@.len() == n,
            forall|t: int| 0 <= t < n ==> #[trigger] sa@[t] < n,
            distinct(sa@),
            forall|a: int, b: int| 0 <= a < b < n ==> key_le(r1, r2, #[trigger] sa@[a] as int, #[trigger] sa@[b] as int),
            tmp@[sa@[0] as int] == 1,
            forall|a: int| 0 <= a < i ==> 1 <= tmp@[#[trigger] sa@[a] as int] <= a + 1,
            forall|a: int, b: int|
                0 <= a <= b < i ==> {
                    &&& (key_eq(r1, r2, #[trigger] sa@[a] as int, #[trigger] sa@[b] as int) ==> tmp@[sa@[a] as int]
                        == tmp@[sa@[b] as int])
                    &&& (key_lt(r1, r2, sa@[a] as int, sa@[b] as int) ==> tmp@[sa@[a] as int] < tmp@[sa@[b] as int])
                    &&& tmp@[sa@[b] as int] - tmp@[sa@[a] as int] <= b - a
                },
        decreases n - i,
    {
        let prev = sa[i - 1];
        let curr = sa[i];
        let same = first[prev] == first[curr] && second[prev] == second[curr];
        let ghost old_tmp = tmp@;
        let step: usize = if same {
            0
        } else {
            1
        };
        let v = tmp[prev] + step;
        tmp.set(curr, v);
        assert forall|a: int| 0 <= a < i implies #[trigger] tmp@[sa@[a] as int] == old_tmp[sa@[a] as int] by {
            assert(sa@[a] != sa@[i as int]);
        }
        assert(key_le(r1, r2, sa@[i - 1] as int, sa@[i as int] as int));
        assert forall|a: int, b: int| 0 <= a <= b < i + 1 implies {
            &&& (key_eq(r1, r2, #[trigger] sa@[a] as int, #[trigger] sa@[b] as int) ==> tmp@[sa@[a] as int]
                == tmp@[sa@[b] as int])
            &&& (key_lt(r1, r2, sa@[a] as int, sa@[b] as int) ==> tmp@[sa@[a] as int] < tmp@[sa@[b] as int])
            &&& tmp@[sa@[b] as int] - tmp@[sa@[a] as int] <= b - a
        } by {
            if b == i && a < i {
                assert(tmp@[sa@[a] as int] == old_tmp[sa@[a] as int]);
                assert(tmp@[sa@[i - 1] as int] == old_tmp[sa@[i - 1] as int]);
                if a < i - 1 {
                    assert(key_le(r1, r2, sa@[a] as int, sa@[i - 1] as int));
                }
            } else if b < i {
                assert(tmp@[sa@[a] as int] == old_tmp[sa@[a] as int]);
                assert(tmp@[sa@[b] as int] == old_tmp[sa@[b] as int]);
            }
        }
        i = i + 1;
    }
    tmp
}

} // verus!
