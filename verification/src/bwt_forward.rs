//! Forward Burrows-Wheeler Transform.

use vstd::prelude::*;
use crate::order::{bytes_eq, bytes_lt, distinct, lemma_lex_total, lemma_lex_transitive, lemma_sorted_permutation_distinct, lex_lt, sorted_permutation};
use crate::rotation::{
    last_column, lemma_rotation_order_total, lemma_rotation_pred, lemma_rotation_sort_unique, rotation, rotation_order,
    sort_rotations, spec_rotation_sort,
};
use crate::sort::{PositionOrder, merge_sort, lemma_all_below_multiset, lemma_no_duplicates_multiset};
use crate::suffix::{bwt_char, bwt_from_suffix_array, bwt_of, last_zero, lemma_last_zero_at};

verus! {

/// Result of the forward BWT.
///
/// Contains the transformed data and the primary index (position of the
/// original first byte in the sorted rotation list).
#[derive(Debug, Clone)]
pub struct BwtResult {
    /// The BWT output bytes.
    pub bwt: Vec<u8>,
    /// The primary index (position of the original string in the rotation table).
    pub primary_index: usize,
}

/// The forward BWT of `s`: the last byte of each row of the rotation
/// table, and the row of the rotation that starts at 0 (the text itself);
/// `(empty, 0)` for empty `s`.
pub open spec fn spec_transform(s: Seq<u8>) -> (Seq<u8>, usize) {
    if s.len() == 0 {
        (Seq::empty(), 0)
    } else {
        let p = spec_rotation_sort(s);
        (last_column(s, p), last_zero(p))
    }
}

/// Reading the byte before each row's start is reading the last column of
/// the rotation table.
pub proof fn lemma_last_column_bwt(s: Seq<u8>, p: Seq<usize>)
    requires
        forall|i: int| 0 <= i < p.len() ==> #[trigger] p[i] < s.len(),
    ensures
        bwt_of(s, p) == last_column(s, p),
{
    assert forall|i: int| 0 <= i < p.len() implies #[trigger] bwt_of(s, p)[i] == last_column(s, p)[i] by {
        lemma_rotation_pred(s, p[i] as int);
        assert(bwt_of(s, p)[i] == bwt_char(s, p[i]));
    }
    assert(bwt_of(s, p) =~= last_column(s, p));
}

/// Compute the forward BWT of the input data.
///
/// The BWT sorts all cyclic rotations of the input (equal rotations in
/// order of their starts) and outputs the last column of the sorted
/// rotation matrix, along with the primary index, the row of the input
/// itself.
pub fn transform(data: &[u8]) -> (r: (Vec<u8>, usize))
    ensures
        r.0@ == spec_transform(data@).0,
        r.1 == spec_transform(data@).1,
{
    if data.is_empty() {
        return (Vec::new(), 0);
    }
    let p = sort_rotations(data);
    proof {
        lemma_rotation_sort_unique(data@, p@);
        lemma_last_column_bwt(data@, p@);
    }
    bwt_from_suffix_array(data, p.as_slice())
}

/// Transform using the BwtResult struct.
pub fn transform_struct(data: &[u8]) -> (r: BwtResult)
    ensures
        r.bwt@ == spec_transform(data@).0,
        r.primary_index == spec_transform(data@).1,
{
    let (bwt, primary_index) = transform(data);
    BwtResult { bwt, primary_index }
}

fn rotation_less(rots: &Vec<Vec<u8>>, x: usize, y: usize) -> (b: bool)
    requires
        x < rots@.len(),
        y < rots@.len(),
    ensures
        b == (lex_lt(rots@[x as int]@, rots@[y as int]@) || (rots@[x as int]@ == rots@[y as int]@ && x < y)),
{
    bytes_lt(rots[x].as_slice(), rots[y].as_slice()) || (bytes_eq(rots[x].as_slice(), rots[y].as_slice()) && x < y)
}

/// Rotation starts ordered by their rotations, ties broken by start.
struct RotationTable<'a> {
    rots: &'a Vec<Vec<u8>>,
}

impl<'a> PositionOrder for RotationTable<'a> {
    closed spec fn size(&self) -> nat {
        self.rots@.len()
    }

    closed spec fn le(&self, x: int, y: int) -> bool {
        x == y || lex_lt(self.rots@[x]@, self.rots@[y]@) || (self.rots@[x]@ == self.rots@[y]@ && x < y)
    }

    proof fn lemma_total_preorder(&self) {
        let n = self.rots@.len() as int;
        assert forall|x: int, y: int, z: int|
            0 <= x < n && 0 <= y < n && 0 <= z < n && #[trigger] self.le(x, y) && #[trigger] self.le(y, z)
            implies self.le(x, z) by {
            let (a, b, c) = (self.rots@[x]@, self.rots@[y]@, self.rots@[z]@);
            if lex_lt(a, b) && lex_lt(b, c) {
                lemma_lex_transitive(a, b, c);
            }
        }
        assert forall|x: int, y: int| 0 <= x < n && 0 <= y < n implies #[trigger] self.le(x, y) || #[trigger] self.le(y, x) by {
            let (a, b) = (self.rots@[x]@, self.rots@[y]@);
            if a != b {
                lemma_lex_total(a, b);
            }
        }
    }

    fn le_exec(&self, x: usize, y: usize) -> (b: bool) {
        x == y || rotation_less(self.rots, x, y)
    }
}

/// Compute BWT using a naive approach (for verification).
///
/// Generates all rotations, sorts them (equal rotations keep their order),
/// and extracts the last column.
/// This is O(n² log n) and should only be used for small inputs or testing.
pub fn transform_naive(data: &[u8]) -> (r: (Vec<u8>, usize))
    ensures
        r.0@ == spec_transform(data@).0,
        r.1 == spec_transform(data@).1,
{
    if data.is_empty() {
        return (Vec::new(), 0);
    }
    let n = data.len();
    let ghost s = data@;
    let mut rotations: Vec<Vec<u8>> = Vec::new();
    let mut order: Vec<usize> = Vec::new();
    let mut i: usize = 0;
    while i < n
        invariant
            n == s.len(),
            s == data@,
            0 <= i <= n,
            rotations@.len() == i,
            order@.len() == i,
            forall|x: int| 0 <= x < i ==> #[trigger] rotations@[x]@ == rotation(s, x),
            forall|x: int| 0 <= x < i ==> #[trigger] order@[x] == x,
        decreases n - i,
    {
        let mut rot: Vec<u8> = Vec::with_capacity(n);
        let mut t: usize = i;
        while t < n
            invariant
                n == s.len(),
                s == data@,
                i <= t <= n,
                rot@ == s.subrange(i as int, t as int),
            decreases n - t,
        {
            rot.push(data[t]);
            assert(rot@ =~= s.subrange(i as int, t + 1));
            t = t + 1;
        }
        let mut t: usize = 0;
        while t < i
            invariant
                n == s.len(),
                s == data@,
                0 <= t <= i < n,
                rot@ == s.subrange(i as int, n as int) + s.subrange(0, t as int),
            decreases i - t,
        {
            rot.push(data[t]);
            assert(rot@ =~= s.subrange(i as int, n as int) + s.subrange(0, t + 1));
            t = t + 1;
        }
        rotations.push(rot);
        order.push(i);
        i = i + 1;
    }
    let ghost unsorted = order@;
    let table = RotationTable { rots: &rotations };
    order = merge_sort(&table, order.as_slice());
    let ghost p = order@;
    proof {
        lemma_all_below_multiset(p, unsorted, n as nat);
        assert(unsorted.no_duplicates());
        lemma_no_duplicates_multiset(p, unsorted);
        assert forall|i: int, j: int| 0 <= i < j < n implies (rotation_order(s))(#[trigger] p[i] as int, #[trigger] p[j] as int) by {
            assert(table.le(p[i] as int, p[j] as int));
            assert(p[i] != p[j]);
            assert(rotations@[p[i] as int]@ == rotation(s, p[i] as int));
            assert(rotations@[p[j] as int]@ == rotation(s, p[j] as int));
        }
        assert(sorted_permutation(p, n as int, rotation_order(s)));
        lemma_rotation_order_total(s);
        lemma_sorted_permutation_distinct(p, n as int, rotation_order(s));
        lemma_rotation_sort_unique(s, p);
    }
    let mut bwt: Vec<u8> = Vec::with_capacity(n);
    let mut i: usize = 0;
    while i < n
        invariant
            n == s.len(),
            p == order@,
            sorted_permutation(p, n as int, rotation_order(s)),
            rotations@.len() == n,
            forall|x: int| 0 <= x < n ==> #[trigger] rotations@[x]@ == rotation(s, x),
            0 <= i <= n,
            bwt@ == Seq::new(i as nat, |r: int| rotation(s, p[r] as int)[n - 1]),
        decreases n - i,
    {
        let rot = &rotations[order[i]];
        assert(rot@ == rotation(s, p[i as int] as int));
        bwt.push(rot[n - 1]);
        assert(bwt@ =~= Seq::new((i + 1) as nat, |r: int| rotation(s, p[r] as int)[n - 1]));
        i = i + 1;
    }
    let mut primary_index: usize = 0;
    let mut i: usize = 0;
    while i < n
        invariant
            n == s.len(),
            p == order@,
            p.len() == n,
            0 <= i <= n,
            forall|t: int| 0 <= t < i ==> p[t] != 0,
        ensures
            0 <= i <= n,
            forall|t: int| 0 <= t < i ==> p[t] != 0,
            i < n ==> p[i as int] == 0 && primary_index == i,
        decreases n - i,
    {
        if order[i] == 0 {
            primary_index = i;
            break;
        }
        i = i + 1;
    }
    proof {
        lemma_sorted_permutation_distinct(p, n as int, rotation_order(s));
        crate::order::lemma_sorted_permutation_covers(p, n as int, rotation_order(s));
        assert(crate::order::occurs(p, 0));
        let z = choose|z: int| 0 <= z < p.len() && p[z] == 0;
        if i == n {
            assert(p[z] != 0);
        }
        assert(i < n);
        assert(distinct(p));
        lemma_last_zero_at(p, i as int);
    }
    (bwt, primary_index)
}

} // verus!
