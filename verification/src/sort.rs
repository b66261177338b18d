//! Merge sort of positions under a total preorder.

use vstd::prelude::*;
use vstd::seq_lib::{group_to_multiset_ensures, lemma_multiset_commutative};
use vstd::slice::{slice_subrange, slice_to_vec};

verus! {

/// A total preorder on the positions `0..size()`, with a way to compare two
/// of them.
pub trait PositionOrder {
    spec fn size(&self) -> nat;

    spec fn le(&self, x: int, y: int) -> bool;

    proof fn lemma_total_preorder(&self)
        ensures
            forall|x: int, y: int, z: int|
                0 <= x < self.size() && 0 <= y < self.size() && 0 <= z < self.size() && #[trigger] self.le(x, y)
                    && #[trigger] self.le(y, z) ==> self.le(x, z),
            forall|x: int, y: int|
                0 <= x < self.size() && 0 <= y < self.size() ==> #[trigger] self.le(x, y) || #[trigger] self.le(y, x),
    ;

    fn le_exec(&self, x: usize, y: usize) -> (b: bool)
        requires
            x < self.size(),
            y < self.size(),
        ensures
            b == self.le(x as int, y as int),
    ;
}

/// Every entry of `v` is a position below `n`.
pub open spec fn all_below(v: Seq<usize>, n: nat) -> bool {
    forall|i: int| 0 <= i < v.len() ==> #[trigger] v[i] < n
}

/// `v` is in increasing order under `ord`.
pub open spec fn sorted_by<O: PositionOrder>(ord: &O, v: Seq<usize>) -> bool {
    forall|i: int, j: int| 0 <= i < j < v.len() ==> ord.le(#[trigger] v[i] as int, #[trigger] v[j] as int)
}

/// Sequences with the same entries, counted with multiplicity, have the
/// same bounds.
pub proof fn lemma_all_below_multiset(p: Seq<usize>, q: Seq<usize>, n: nat)
    requires
        p.to_multiset() == q.to_multiset(),
        all_below(q, n),
    ensures
        all_below(p, n),
{
    broadcast use group_to_multiset_ensures;

    assert forall|i: int| 0 <= i < p.len() implies #[trigger] p[i] < n by {
        assert(p.contains(p[i]));
        assert(q.to_multiset().count(p[i]) > 0);
        assert(q.contains(p[i]));
    }
}

/// Rearranging a sequence keeps it free of repeats.
pub proof fn lemma_no_duplicates_multiset(p: Seq<usize>, q: Seq<usize>)
    requires
        p.to_multiset() == q.to_multiset(),
        q.no_duplicates(),
    ensures
        p.no_duplicates(),
{
    q.lemma_multiset_has_no_duplicates();
    p.lemma_multiset_has_no_duplicates_conv();
}

fn merge<O: PositionOrder>(ord: &O, a: &Vec<usize>, b: &Vec<usize>) -> (out: Vec<usize>)
    requires
        all_below(a@, ord.size()),
        all_below(b@, ord.size()),
        sorted_by(ord, a@),
        sorted_by(ord, b@),
    ensures
        out@.to_multiset() == a@.to_multiset().add(b@.to_multiset()),
        out@.len() == a@.len() + b@.len(),
        sorted_by(ord, out@),
{
    broadcast use group_to_multiset_ensures;
    broadcast use vstd::multiset::group_multiset_axioms;

    proof {
        ord.lemma_total_preorder();
    }
    let mut out: Vec<usize> = Vec::new();
    let mut i: usize = 0;
    let mut j: usize = 0;
    assert(a@.take(0) =~= Seq::<usize>::empty());
    assert(b@.take(0) =~= Seq::<usize>::empty());
    while i < a.len() || j < b.len()
        invariant
            0 <= i <= a@.len(),
            0 <= j <= b@.len(),
            all_below(a@, ord.size()),
            all_below(b@, ord.size()),
            sorted_by(ord, a@),
            sorted_by(ord, b@),
            forall|x: int, y: int, z: int|
                0 <= x < ord.size() && 0 <= y < ord.size() && 0 <= z < ord.size() && #[trigger] ord.le(x, y)
                    && #[trigger] ord.le(y, z) ==> ord.le(x, z),
            forall|x: int, y: int|
                0 <= x < ord.size() && 0 <= y < ord.size() ==> #[trigger] ord.le(x, y) || #[trigger] ord.le(y, x),
            out@.len() == i + j,
            out@.to_multiset() == a@.take(i as int).to_multiset().add(b@.take(j as int).to_multiset()),
            all_below(out@, ord.size()),
            sorted_by(ord, out@),
            out@.len() > 0 && i < a@.len() ==> ord.le(out@.last() as int, a@[i as int] as int),
            out@.len() > 0 && j < b@.len() ==> ord.le(out@.last() as int, b@[j as int] as int),
        decreases a@.len() + b@.len() - i - j,
    {
        let ghost old_out = out@;
        let take_a = if j >= b.len() {
            true
        } else if i >= a.len() {
            false
        } else {
            ord.le_exec(a[i], b[j])
        };
        if take_a {
            let x = a[i];
            out.push(x);
            proof {
                assert(a@.take(i + 1) =~= a@.take(i as int).push(x));
                assert(out@ =~= old_out.push(x));
                old_out.to_multiset_ensures();
                a@.take(i as int).to_multiset_ensures();
                assert(a@.take(i as int).push(x).to_multiset() =~= a@.take(i as int).to_multiset().insert(x));
                assert(out@.to_multiset() =~= a@.take(i + 1).to_multiset().add(b@.take(j as int).to_multiset()));
                if j < b@.len() {
                    assert(ord.le(x as int, b@[j as int] as int));
                }
                if i + 1 < a@.len() {
                    assert(ord.le(a@[i as int] as int, a@[i + 1] as int));
                }
            }
            i = i + 1;
        } else {
            let y = b[j];
            out.push(y);
            proof {
                assert(b@.take(j + 1) =~= b@.take(j as int).push(y));
                assert(out@ =~= old_out.push(y));
                old_out.to_multiset_ensures();
                b@.take(j as int).to_multiset_ensures();
                assert(b@.take(j as int).push(y).to_multiset() =~= b@.take(j as int).to_multiset().insert(y));
                assert(out@.to_multiset() =~= a@.take(i as int).to_multiset().add(b@.take(j + 1).to_multiset()));
                if i < a@.len() {
                    assert(!ord.le(a@[i as int] as int, y as int));
                    assert(ord.le(y as int, a@[i as int] as int));
                }
                if j + 1 < b@.len() {
                    assert(ord.le(b@[j as int] as int, b@[j + 1] as int));
                }
            }
            j = j + 1;
        }
        proof {
            let x = out@.last();
            assert forall|p: int, q: int| 0 <= p < q < out@.len() implies ord.le(
                #[trigger] out@[p] as int,
                #[trigger] out@[q] as int,
            ) by {
                if q == out@.len() - 1 && p < q - 1 {
                    assert(ord.le(old_out[p] as int, old_out.last() as int));
                }
            }
        }
    }
    assert(a@.take(a@.len() as int) =~= a@);
    assert(b@.take(b@.len() as int) =~= b@);
    out
}

/// Sort the positions in `v` under `ord`.
pub fn merge_sort<O: PositionOrder>(ord: &O, v: &[usize]) -> (out: Vec<usize>)
    requires
        all_below(v@, ord.size()),
    ensures
        out@.to_multiset() == v@.to_multiset(),
        out@.len() == v@.len(),
        sorted_by(ord, out@),
    decreases v@.len(),
{
    if v.len() <= 1 {
        return slice_to_vec(v);
    }
    let mid = v.len() / 2;
    let left_half = slice_subrange(v, 0, mid);
    let right_half = slice_subrange(v, mid, v.len());
    let left = merge_sort(ord, left_half);
    let right = merge_sort(ord, right_half);
    proof {
        lemma_all_below_multiset(left@, left_half@, ord.size());
        lemma_all_below_multiset(right@, right_half@, ord.size());
        assert(v@ =~= left_half@ + right_half@);
        lemma_multiset_commutative(left_half@, right_half@);
    }
    merge(ord, &left, &right)
}

/// `x` sorts no higher than `y` by the rank pairs `(r1, r2)`.
pub open spec fn key_le(r1: Seq<usize>, r2: Seq<usize>, x: int, y: int) -> bool {
    r1[x] < r1[y] || (r1[x] == r1[y] && r2[x] <= r2[y])
}

/// `x` sorts below `y` by the rank pairs `(r1, r2)`.
pub open spec fn key_lt(r1: Seq<usize>, r2: Seq<usize>, x: int, y: int) -> bool {
    r1[x] < r1[y] || (r1[x] == r1[y] && r2[x] < r2[y])
}

/// `x` and `y` have the same rank pair.
pub open spec fn key_eq(r1: Seq<usize>, r2: Seq<usize>, x: int, y: int) -> bool {
    r1[x] == r1[y] && r2[x] == r2[y]
}

/// Positions ordered by a pair of ranks, the first deciding.
pub struct RankPairs<'a> {
    pub first: &'a Vec<usize>,
    pub second: &'a Vec<usize>,
}

impl<'a> PositionOrder for RankPairs<'a> {
    open spec fn size(&self) -> nat {
        if self.first@.len() <= self.second@.len() {
            self.first@.len()
        } else {
            self.second@.len()
        }
    }

    open spec fn le(&self, x: int, y: int) -> bool {
        key_le(self.first@, self.second@, x, y)
    }

    proof fn lemma_total_preorder(&self) {
    }

    fn le_exec(&self, x: usize, y: usize) -> (b: bool) {
        self.first[x] < self.first[y] || (self.first[x] == self.first[y] && self.second[x] <= self.second[y])
    }
}

} // verus!
