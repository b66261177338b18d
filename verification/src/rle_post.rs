//! Run-length encoding optimized for post-BWT data.
//!
//! After BWT + MTF, the data consists mostly of small values (0s and 1s)
//! with long runs. This module provides RLE variants that efficiently
//! encode such data.

use vstd::prelude::*;

verus! {

/// The runs of `s`, left to right: each maximal run of one value becomes
/// `(value, count)`, and a run longer than 65535 is split into runs of
/// 65535 followed by the rest.
pub open spec fn rle_encode(s: Seq<u8>) -> Seq<(u8, u16)>
    decreases s.len(),
{
    if s.len() == 0 {
        Seq::empty()
    } else {
        let prev = rle_encode(s.drop_last());
        let b = s.last();
        if prev.len() > 0 && prev.last().0 == b && prev.last().1 < 65535 {
            prev.drop_last().push((b, (prev.last().1 + 1) as u16))
        } else {
            prev.push((b, 1u16))
        }
    }
}

/// `c` copies of `v`.
pub open spec fn run(v: u8, c: nat) -> Seq<u8> {
    Seq::new(c, |i: int| v)
}

/// The bytes that the runs `pairs` stand for, in order.
pub open spec fn rle_decode(pairs: Seq<(u8, u16)>) -> Seq<u8>
    decreases pairs.len(),
{
    if pairs.len() == 0 {
        Seq::empty()
    } else {
        rle_decode(pairs.drop_last()) + run(pairs.last().0, pairs.last().1 as nat)
    }
}

/// Run-length encode post-BWT/MTF data using a simple scheme.
///
/// Each run is stored as `(value, count)` where count is a `u16`.
/// This is effective for the long runs of zeros typical after BWT+MTF.
pub fn encode(data: &[u8]) -> (r: Vec<(u8, u16)>)
    ensures
        r@ == rle_encode(data@),
{
    if data.is_empty() {
        return Vec::new();
    }
    let mut result: Vec<(u8, u16)> = Vec::new();
    let mut current = data[0];
    let mut count: u16 = 1;
    proof {
        assert(data@.take(1).drop_last() =~= Seq::<u8>::empty());
        assert(data@.take(1).last() == current);
        assert(rle_encode(data@.take(1).drop_last()).len() == 0);
        assert(result@.len() == 0);
        assert(rle_encode(data@.take(1)) =~= result@.push((current, count)));
    }
    let mut i: usize = 1;
    while i < data.len()
        invariant
            1 <= i <= data@.len(),
            count >= 1,
            rle_encode(data@.take(i as int)) == result@.push((current, count)),
        decreases data@.len() - i,
    {
        let byte = data[i];
        proof {
            assert(data@.take(i + 1).drop_last() =~= data@.take(i as int));
            assert(data@.take(i + 1).last() == byte);
        }
        if byte == current && count < 65535 {
            count = count + 1;
            proof {
                assert(result@.push((current, (count - 1) as u16)).drop_last() =~= result@);
            }
        } else {
            result.push((current, count));
            current = byte;
            count = 1;
        }
        i = i + 1;
    }
    assert(data@.take(data@.len() as int) =~= data@);
    result.push((current, count));
    result
}

/// Decode post-BWT run-length encoded data.
pub fn decode(pairs: &[(u8, u16)]) -> (r: Vec<u8>)
    ensures
        r@ == rle_decode(pairs@),
{
    let mut total: usize = 0;
    let mut i: usize = 0;
    while i < pairs.len()
        invariant
            0 <= i <= pairs@.len(),
        decreases pairs@.len() - i,
    {
        total = total.saturating_add(pairs[i].1 as usize);
        i = i + 1;
    }
    let mut result: Vec<u8> = Vec::with_capacity(total);
    let mut i: usize = 0;
    while i < pairs.len()
        invariant
            0 <= i <= pairs@.len(),
            result@ == rle_decode(pairs@.take(i as int)),
        decreases pairs@.len() - i,
    {
        let (byte, count) = pairs[i];
        let ghost base = result@;
        let mut j: u16 = 0;
        while j < count
            invariant
                0 <= j <= count,
                result@ == base + run(byte, j as nat),
            decreases count - j,
        {
            result.push(byte);
            assert(result@ =~= base + run(byte, (j + 1) as nat));
            j = j + 1;
        }
        proof {
            assert(pairs@.take(i + 1).drop_last() =~= pairs@.take(i as int));
            assert(pairs@.take(i + 1).last() == pairs@[i as int]);
        }
        i = i + 1;
    }
    assert(pairs@.take(pairs@.len() as int) =~= pairs@);
    result
}

/// Run-length decoding gives back the data that was encoded; every run is
/// non-empty, and two neighbouring runs share a value only where the first
/// is full (65535 long).
pub proof fn lemma_rle_roundtrip(s: Seq<u8>)
    ensures
        rle_decode(rle_encode(s)) == s,
        forall|i: int| 0 <= i < rle_encode(s).len() ==> #[trigger] rle_encode(s)[i].1 >= 1,
        forall|i: int|
            0 <= i < rle_encode(s).len() - 1 && #[trigger] rle_encode(s)[i].0 == rle_encode(s)[i + 1].0
                ==> rle_encode(s)[i].1 == 65535,
    decreases s.len(),
{
    if s.len() > 0 {
        let d = s.drop_last();
        lemma_rle_roundtrip(d);
        let prev = rle_encode(d);
        let b = s.last();
        if prev.len() > 0 && prev.last().0 == b && prev.last().1 < 65535 {
            let q = prev.drop_last();
            let c = prev.last().1 as nat;
            assert(prev.drop_last().push((b, (prev.last().1 + 1) as u16)).drop_last() =~= q);
            assert(rle_decode(prev) == rle_decode(q) + run(b, c));
            assert(run(b, c + 1) =~= run(b, c).push(b));
            assert(s =~= d.push(b));
            assert(rle_decode(q) + run(b, c + 1) =~= (rle_decode(q) + run(b, c)).push(b));
        } else {
            assert(prev.push((b, 1u16)).drop_last() =~= prev);
            assert(run(b, 1) =~= seq![b]);
            assert(s =~= d + seq![b]);
        }
    } else {
        assert(rle_decode(rle_encode(s)) =~= s);
    }
}

/// Runs as `encode` writes them: none empty, and neighbouring runs share
/// a value only where the first is full.
pub open spec fn rle_canonical(pairs: Seq<(u8, u16)>) -> bool {
    &&& forall|i: int| 0 <= i < pairs.len() ==> #[trigger] pairs[i].1 >= 1
    &&& forall|i: int|
        0 <= i < pairs.len() - 1 && #[trigger] pairs[i].0 == pairs[i + 1].0 ==> pairs[i].1 == 65535
}

proof fn lemma_rle_encode_run(t: Seq<u8>, q: Seq<(u8, u16)>, v: u8, c: nat)
    requires
        rle_encode(t) == q,
        1 <= c <= 65535,
        q.len() > 0 && q.last().0 == v ==> q.last().1 == 65535,
    ensures
        rle_encode(t + run(v, c)) == q.push((v, c as u16)),
    decreases c,
{
    if c == 1 {
        assert((t + run(v, 1)).drop_last() =~= t);
    } else {
        lemma_rle_encode_run(t, q, v, (c - 1) as nat);
        let u = t + run(v, c);
        assert(u.drop_last() =~= t + run(v, (c - 1) as nat));
        assert(u.last() == v);
        assert(q.push((v, (c - 1) as u16)).drop_last() =~= q);
    }
}

/// Encoding the bytes that canonical runs stand for gives those runs back.
pub proof fn lemma_rle_canonical_roundtrip(pairs: Seq<(u8, u16)>)
    requires
        rle_canonical(pairs),
    ensures
        rle_encode(rle_decode(pairs)) == pairs,
    decreases pairs.len(),
{
    if pairs.len() == 0 {
        assert(rle_decode(pairs) =~= Seq::<u8>::empty());
        assert(rle_encode(Seq::<u8>::empty()) =~= pairs);
    } else {
        let q = pairs.drop_last();
        let (v, c) = pairs.last();
        assert(rle_canonical(q)) by {
            assert forall|i: int| 0 <= i < q.len() - 1 && #[trigger] q[i].0 == q[i + 1].0 implies q[i].1 == 65535 by {
                assert(pairs[i] == q[i] && pairs[i + 1] == q[i + 1]);
            }
        }
        lemma_rle_canonical_roundtrip(q);
        if q.len() > 0 && q.last().0 == v {
            assert(pairs[q.len() - 1] == q.last());
        }
        assert(pairs[pairs.len() - 1].1 >= 1);
        lemma_rle_encode_run(rle_decode(q), q, v, c as nat);
        assert(q.push((v, c)) =~= pairs);
    }
}

/// `c` items split into chunks of at most 255, each written as `tag`
/// followed by the chunk's size.
pub open spec fn chunks(tag: Seq<u8>, c: nat) -> Seq<u8>
    decreases c,
{
    if c == 0 {
        Seq::empty()
    } else {
        let ch: nat = if c < 255 {
            c
        } else {
            255
        };
        tag.push(ch as u8) + chunks(tag, (c - ch) as nat)
    }
}

/// The compact bytes of one run: zeros as `[0x00, n]` chunks; a single
/// non-zero byte as itself (0xFF as `[0xFF, 0xFF, 1]`); a longer non-zero
/// run as `[0xFF, value, n]` chunks.
pub open spec fn run_bytes(v: u8, c: nat) -> Seq<u8> {
    if v == 0 {
        chunks(seq![0u8], c)
    } else if c == 1 {
        if v == 0xFF {
            seq![0xFFu8, 0xFFu8, 1u8]
        } else {
            seq![v]
        }
    } else {
        chunks(seq![0xFFu8, v], c)
    }
}

/// The compact bytes of the runs `pairs`, in order.
pub open spec fn compact_of(pairs: Seq<(u8, u16)>) -> Seq<u8>
    decreases pairs.len(),
{
    if pairs.len() == 0 {
        Seq::empty()
    } else {
        compact_of(pairs.drop_last()) + run_bytes(pairs.last().0, pairs.last().1 as nat)
    }
}

/// Put `prefix` in front of a decoded result, if there is one.
pub open spec fn prepend(prefix: Seq<u8>, r: Option<Seq<u8>>) -> Option<Seq<u8>> {
    match r {
        Some(t) => Some(prefix + t),
        None => None,
    }
}

/// Decoding of the compact format: `[0x00, n]` is `n` zeros, `[0xFF, v, n]`
/// is `n` copies of `v`, any other byte stands for itself; a `0x00` or
/// `0xFF` that lacks its following bytes makes the whole input invalid.
pub open spec fn spec_decode_compact(d: Seq<u8>) -> Option<Seq<u8>>
    decreases d.len(),
{
    if d.len() == 0 {
        Some(Seq::empty())
    } else if d[0] == 0 {
        if d.len() < 2 {
            None
        } else {
            prepend(run(0, d[1] as nat), spec_decode_compact(d.skip(2)))
        }
    } else if d[0] == 0xFF {
        if d.len() < 3 {
            None
        } else {
            prepend(run(d[1], d[2] as nat), spec_decode_compact(d.skip(3)))
        }
    } else {
        prepend(seq![d[0]], spec_decode_compact(d.skip(1)))
    }
}

/// Encode into a compact byte format suitable for post-BWT data.
///
/// Uses a bzip2-style RUNA/RUNB encoding for zeros, and direct byte
/// values for non-zero entries. Simplified version:
///
/// - If value is 0 and count > 0: `[0x00, count_u8]` (up to 255 zeros)
/// - Otherwise: `[value]` for single occurrences, or `[0xFF, value, count_u8]`
///   for repeated non-zero values.
pub fn encode_compact(data: &[u8]) -> (r: Vec<u8>)
    ensures
        r@ == compact_of(rle_encode(data@)),
{
    let pairs = encode(data);
    let mut out: Vec<u8> = Vec::new();
    let mut i: usize = 0;
    while i < pairs.len()
        invariant
            0 <= i <= pairs@.len(),
            out@ == compact_of(pairs@.take(i as int)),
        decreases pairs@.len() - i,
    {
        let (value, c) = pairs[i];
        let ghost base = out@;
        let mut count = c;
        if value == 0 {
            while count > 0
                invariant
                    base + chunks(seq![0u8], c as nat) == out@ + chunks(seq![0u8], count as nat),
                decreases count,
            {
                let chunk: u8 = if count < 255 { count as u8 } else { 255 };
                let ghost before = out@;
                out.push(0x00);
                out.push(chunk);
                proof {
                    let tag = seq![0u8];
                    assert(tag.push(chunk) =~= seq![0u8, chunk]);
                    assert(out@ =~= before + tag.push(chunk));
                    assert(chunks(tag, count as nat) == tag.push(chunk) + chunks(tag, (count - chunk) as nat));
                    assert(before + chunks(tag, count as nat) =~= out@ + chunks(tag, (count - chunk) as nat));
                }
                count = count - chunk as u16;
            }
            assert(out@ =~= base + run_bytes(value, c as nat));
        } else if count == 1 {
            if value == 0xFF {
                out.push(0xFF);
                out.push(0xFF);
                out.push(1);
            } else {
                out.push(value);
            }
            assert(out@ =~= base + run_bytes(value, c as nat));
        } else {
            while count > 0
                invariant
                    base + chunks(seq![0xFFu8, value], c as nat) == out@ + chunks(seq![0xFFu8, value], count as nat),
                decreases count,
            {
                let chunk: u8 = if count < 255 { count as u8 } else { 255 };
                let ghost before = out@;
                out.push(0xFF);
                out.push(value);
                out.push(chunk);
                proof {
                    let tag = seq![0xFFu8, value];
                    assert(tag.push(chunk) =~= seq![0xFFu8, value, chunk]);
                    assert(out@ =~= before + tag.push(chunk));
                    assert(chunks(tag, count as nat) == tag.push(chunk) + chunks(tag, (count - chunk) as nat));
                    assert(before + chunks(tag, count as nat) =~= out@ + chunks(tag, (count - chunk) as nat));
                }
                count = count - chunk as u16;
            }
            assert(out@ =~= base + run_bytes(value, c as nat));
        }
        proof {
            assert(pairs@.take(i + 1).drop_last() =~= pairs@.take(i as int));
            assert(pairs@.take(i + 1).last() == pairs@[i as int]);
        }
        i = i + 1;
    }
    assert(pairs@.take(pairs@.len() as int) =~= pairs@);
    out
}

/// Decode from compact byte format; `None` when a `0x00` or `0xFF` marker
/// lacks the bytes that must follow it.
pub fn decode_compact(data: &[u8]) -> (r: Option<Vec<u8>>)
    ensures
        match r {
            Some(v) => spec_decode_compact(data@) == Some(v@),
            None => spec_decode_compact(data@) is None,
        },
{
    let mut result: Vec<u8> = Vec::new();
    let mut i: usize = 0;
    assert(data@.skip(0) =~= data@);
    while i < data.len()
        invariant
            0 <= i <= data@.len(),
            spec_decode_compact(data@) == prepend(result@, spec_decode_compact(data@.skip(i as int))),
        decreases data@.len() - i,
    {
        let ghost rest = data@.skip(i as int);
        let ghost before = result@;
        if data[i] == 0x00 {
            if data.len() - i < 2 {
                return None;
            }
            let count = data[i + 1];
            let mut j: u8 = 0;
            while j < count
                invariant
                    0 <= j <= count,
                    result@ == before + run(0, j as nat),
                decreases count - j,
            {
                result.push(0);
                assert(result@ =~= before + run(0, (j + 1) as nat));
                j = j + 1;
            }
            proof {
                assert(rest.skip(2) =~= data@.skip(i + 2));
                assert(rest[1] == count);
                lemma_prepend_assoc(before, run(0, count as nat), spec_decode_compact(rest.skip(2)));
            }
            i = i + 2;
        } else if data[i] == 0xFF {
            if data.len() - i < 3 {
                return None;
            }
            let value = data[i + 1];
            let count = data[i + 2];
            let mut j: u8 = 0;
            while j < count
                invariant
                    0 <= j <= count,
                    result@ == before + run(value, j as nat),
                decreases count - j,
            {
                result.push(value);
                assert(result@ =~= before + run(value, (j + 1) as nat));
                j = j + 1;
            }
            proof {
                assert(rest.skip(3) =~= data@.skip(i + 3));
                assert(rest[1] == value);
                assert(rest[2] == count);
                lemma_prepend_assoc(before, run(value, count as nat), spec_decode_compact(rest.skip(3)));
            }
            i = i + 3;
        } else {
            let value = data[i];
            result.push(value);
            proof {
                assert(rest.skip(1) =~= data@.skip(i + 1));
                assert(result@ =~= before + seq![value]);
                lemma_prepend_assoc(before, seq![value], spec_decode_compact(rest.skip(1)));
            }
            i = i + 1;
        }
    }
    proof {
        assert(data@.skip(i as int) =~= Seq::<u8>::empty());
        assert(result@ + Seq::<u8>::empty() =~= result@);
    }
    Some(result)
}

proof fn lemma_prepend_assoc(a: Seq<u8>, b: Seq<u8>, r: Option<Seq<u8>>)
    ensures
        prepend(a, prepend(b, r)) == prepend(a + b, r),
{
    if let Some(t) = r {
        assert(a + (b + t) =~= (a + b) + t);
    }
}

/// Compute compression statistics.
///
/// Returns `(encoded_pair_count, original_byte_count)`.
pub fn compression_stats(data: &[u8]) -> (r: (usize, usize))
    ensures
        r.0 == rle_encode(data@).len(),
        r.1 == data@.len(),
{
    let pairs = encode(data);
    (pairs.len(), data.len())
}

/// Estimate the compact encoded size in bytes.
pub fn compact_size(data: &[u8]) -> (r: usize)
    ensures
        r == compact_of(rle_encode(data@)).len(),
{
    encode_compact(data).len()
}

proof fn lemma_decode_zero_chunks(c: nat, rest: Seq<u8>)
    ensures
        spec_decode_compact(chunks(seq![0u8], c) + rest) == prepend(run(0, c), spec_decode_compact(rest)),
    decreases c,
{
    let tag = seq![0u8];
    if c == 0 {
        assert(chunks(tag, c) + rest =~= rest);
        assert(run(0, 0) + Seq::<u8>::empty() =~= Seq::<u8>::empty());
        if let Some(t) = spec_decode_compact(rest) {
            assert(run(0, 0) + t =~= t);
        }
    } else {
        let ch: nat = if c < 255 { c } else { 255 };
        let d = chunks(tag, c) + rest;
        let tail = chunks(tag, (c - ch) as nat) + rest;
        assert(d =~= seq![0u8, ch as u8] + tail);
        assert(d[0] == 0);
        assert(d[1] == ch as u8);
        assert(d.skip(2) =~= tail);
        lemma_decode_zero_chunks((c - ch) as nat, rest);
        lemma_prepend_assoc(run(0, ch), run(0, (c - ch) as nat), spec_decode_compact(rest));
        assert(run(0, ch) + run(0, (c - ch) as nat) =~= run(0, c));
    }
}

proof fn lemma_decode_value_chunks(v: u8, c: nat, rest: Seq<u8>)
    ensures
        spec_decode_compact(chunks(seq![0xFFu8, v], c) + rest) == prepend(run(v, c), spec_decode_compact(rest)),
    decreases c,
{
    let tag = seq![0xFFu8, v];
    if c == 0 {
        assert(chunks(tag, c) + rest =~= rest);
        if let Some(t) = spec_decode_compact(rest) {
            assert(run(v, 0) + t =~= t);
        }
    } else {
        let ch: nat = if c < 255 { c } else { 255 };
        let d = chunks(tag, c) + rest;
        let tail = chunks(tag, (c - ch) as nat) + rest;
        assert(d =~= seq![0xFFu8, v, ch as u8] + tail);
        assert(d[0] == 0xFF);
        assert(d[1] == v);
        assert(d[2] == ch as u8);
        assert(d.skip(3) =~= tail);
        lemma_decode_value_chunks(v, (c - ch) as nat, rest);
        lemma_prepend_assoc(run(v, ch), run(v, (c - ch) as nat), spec_decode_compact(rest));
        assert(run(v, ch) + run(v, (c - ch) as nat) =~= run(v, c));
    }
}

proof fn lemma_decode_run_bytes(v: u8, c: nat, rest: Seq<u8>)
    ensures
        spec_decode_compact(run_bytes(v, c) + rest) == prepend(run(v, c), spec_decode_compact(rest)),
{
    if v == 0 {
        lemma_decode_zero_chunks(c, rest);
        assert(run(0, c) =~= run(v, c));
    } else if c == 1 {
        if v == 0xFF {
            let d = run_bytes(v, c) + rest;
            assert(d[0] == 0xFF && d[1] == 0xFF && d[2] == 1);
            assert(d.skip(3) =~= rest);
            assert(run(0xFF, 1) =~= run(v, c));
        } else {
            let d = run_bytes(v, c) + rest;
            assert(d[0] == v);
            assert(d.skip(1) =~= rest);
            assert(seq![v] =~= run(v, c));
        }
    } else {
        lemma_decode_value_chunks(v, c, rest);
    }
}

proof fn lemma_decode_compact_of(pairs: Seq<(u8, u16)>, rest: Seq<u8>)
    ensures
        spec_decode_compact(compact_of(pairs) + rest) == prepend(rle_decode(pairs), spec_decode_compact(rest)),
    decreases pairs.len(),
{
    if pairs.len() == 0 {
        assert(compact_of(pairs) + rest =~= rest);
        if let Some(t) = spec_decode_compact(rest) {
            assert(rle_decode(pairs) + t =~= t);
        }
    } else {
        let q = pairs.drop_last();
        let (v, c) = pairs.last();
        let rest2 = run_bytes(v, c as nat) + rest;
        assert(compact_of(pairs) + rest =~= compact_of(q) + rest2);
        lemma_decode_compact_of(q, rest2);
        lemma_decode_run_bytes(v, c as nat, rest);
        lemma_prepend_assoc(rle_decode(q), run(v, c as nat), spec_decode_compact(rest));
    }
}

/// Decoding the compact format gives back the data that was encoded.
pub proof fn lemma_compact_roundtrip(s: Seq<u8>)
    ensures
        spec_decode_compact(compact_of(rle_encode(s))) == Some(s),
{
    let pairs = rle_encode(s);
    lemma_decode_compact_of(pairs, Seq::empty());
    assert(compact_of(pairs) + Seq::<u8>::empty() =~= compact_of(pairs));
    assert(spec_decode_compact(Seq::<u8>::empty()) == Some(Seq::<u8>::empty()));
    lemma_rle_roundtrip(s);
    assert(rle_decode(pairs) + Seq::<u8>::empty() =~= rle_decode(pairs));
}

proof fn lemma_compact_single_run(v: u8, c: nat)
    requires
        1 <= c <= 65535,
    ensures
        compact_of(rle_encode(run(v, c))) == run_bytes(v, c),
{
    lemma_rle_encode_run(Seq::empty(), Seq::empty(), v, c);
    assert(Seq::<u8>::empty() + run(v, c) =~= run(v, c));
    assert(rle_encode(Seq::<u8>::empty()) =~= Seq::<(u8, u16)>::empty());
    let q = Seq::<(u8, u16)>::empty().push((v, c as u16));
    assert(q.drop_last() =~= Seq::<(u8, u16)>::empty());
    assert(compact_of(Seq::<(u8, u16)>::empty()) + run_bytes(v, c) =~= run_bytes(v, c));
}

/// Appending a run of a byte that the data does not end with appends the
/// compact bytes of that run on its own: the compact bytes of data are
/// those of its runs, in order.
pub proof fn lemma_compact_append_run(t: Seq<u8>, v: u8, c: nat)
    requires
        1 <= c <= 65535,
        t.len() == 0 || t.last() != v,
    ensures
        compact_of(rle_encode(t + run(v, c))) == compact_of(rle_encode(t)) + compact_of(rle_encode(run(v, c))),
{
    let q = rle_encode(t);
    if t.len() > 0 {
        assert(q.len() > 0 && q.last().0 == t.last());
    } else {
        assert(q =~= Seq::<(u8, u16)>::empty());
    }
    lemma_rle_encode_run(t, q, v, c);
    assert(q.push((v, c as u16)).drop_last() =~= q);
    lemma_compact_single_run(v, c);
}

/// The compact bytes of a run of at most 255 copies of `v`: `[0x00, c]`
/// for zeros; the byte itself for a single byte other than 0x00 and 0xFF;
/// `[0xFF, 0xFF, 1]` for a single 0xFF; `[0xFF, v, c]` for a longer
/// non-zero run.
pub proof fn lemma_compact_short_run(v: u8, c: nat)
    requires
        1 <= c <= 255,
    ensures
        compact_of(rle_encode(run(v, c))) == if v == 0 {
            seq![0u8, c as u8]
        } else if c == 1 && v != 0xFF {
            seq![v]
        } else if c == 1 {
            seq![0xFFu8, 0xFFu8, 1u8]
        } else {
            seq![0xFFu8, v, c as u8]
        },
{
    lemma_compact_single_run(v, c);
    let tag = if v == 0 {
        seq![0u8]
    } else {
        seq![0xFFu8, v]
    };
    assert(chunks(tag, c) == tag.push(c as u8) + chunks(tag, 0));
    assert(chunks(tag, c) =~= tag.push(c as u8));
}

/// A run of more than 255 copies of `v` (up to 65535) is written as a
/// first chunk of 255 (`[0x00, 255]` for zeros, `[0xFF, v, 255]`
/// otherwise) followed by the rest; a non-zero rest of one byte is written
/// as the chunk `[0xFF, v, 1]`.
pub proof fn lemma_compact_long_run(v: u8, c: nat)
    requires
        256 <= c <= 65535,
    ensures
        compact_of(rle_encode(run(v, c))) == (if v == 0 {
            seq![0u8, 255u8]
        } else {
            seq![0xFFu8, v, 255u8]
        }) + (if v != 0 && c == 256 {
            seq![0xFFu8, v, 1u8]
        } else {
            compact_of(rle_encode(run(v, (c - 255) as nat)))
        }),
{
    lemma_compact_single_run(v, c);
    lemma_compact_single_run(v, (c - 255) as nat);
    let tag = if v == 0 {
        seq![0u8]
    } else {
        seq![0xFFu8, v]
    };
    assert(chunks(tag, c) == tag.push(255u8) + chunks(tag, (c - 255) as nat));
    if v != 0 && c == 256 {
        assert(chunks(tag, 1) == tag.push(1u8) + chunks(tag, 0));
        assert(chunks(tag, 1) =~= seq![0xFFu8, v, 1u8]);
    }
    if v == 0 {
        assert(tag.push(255u8) =~= seq![0u8, 255u8]);
    } else {
        assert(tag.push(255u8) =~= seq![0xFFu8, v, 255u8]);
    }
}

} // verus!
