//! Occurrences of byte literals at window and chunk boundaries: the scans
//! report every occurrence that no other occurrence overlaps, exactly once.
use vstd::prelude::*;

use crate::regex_processor::literal_spans;
use crate::parallel::{chunk_records, lemma_ordered_strict};
use crate::stream::{has_offset, ordered_after, record_at, scan_spans, RecordView, SequentialScan};

verus! {

/// `d` occurs in `data` at `q`.
pub open spec fn occurs_at(d: Seq<u8>, data: Seq<u8>, q: int) -> bool {
    0 <= q && q + d.len() <= data.len() && data.subrange(q, q + d.len()) == d
}

/// `d` occurs at `q`, and at no other position that would overlap it.
pub open spec fn isolated(d: Seq<u8>, data: Seq<u8>, q: int) -> bool {
    &&& occurs_at(d, data, q)
    &&& forall|r: int| q - d.len() < r < q + d.len() && r != q ==> !#[trigger] occurs_at(d, data, r)
}

/// Every isolated occurrence of `d` before `cursor`, or not after `last`,
/// is among the offsets of `out`.
pub open spec fn catches(d: Seq<u8>, data: Seq<u8>, out: Seq<RecordView>, cursor: u64, last: Option<u64>) -> bool {
    forall|q: int|
        #[trigger] isolated(d, data, q) && (q < cursor || (last is Some && q <= last->0)) ==> has_offset(
            out,
            q as u64,
        )
}

/// The spans of a literal are occurrences of it, in increasing order.
pub proof fn lemma_literal_spans_shape(d: Seq<u8>, w: Seq<u8>, from: int)
    requires
        d.len() > 0,
        0 <= from,
        w.len() <= usize::MAX,
    ensures
        ({
            let sp = literal_spans(d, w, from);
            &&& forall|j: int|
                0 <= j < sp.len() ==> from <= (#[trigger] sp[j]).0 && sp[j].1 == sp[j].0 + d.len()
                    && sp[j].1 <= w.len() && w.subrange(sp[j].0 as int, sp[j].1 as int) == d
            &&& forall|i: int, j: int| 0 <= i < j < sp.len() ==> (#[trigger] sp[i]).1 <= (#[trigger] sp[j]).0
        }),
    decreases w.len() - from,
{
    let sp = literal_spans(d, w, from);
    if from + d.len() > w.len() {
        assert(sp.len() == 0);
    } else if w.subrange(from, from + d.len()) == d {
        lemma_literal_spans_shape(d, w, from + d.len());
        let rest = literal_spans(d, w, from + d.len());
        let head = (from as usize, (from + d.len()) as usize);
        assert(sp == seq![head] + rest);
        assert(head.0 == from && head.1 == from + d.len());
        assert forall|j: int| 0 <= j < sp.len() implies from <= (#[trigger] sp[j]).0 && sp[j].1 == sp[j].0
            + d.len() && sp[j].1 <= w.len() && w.subrange(sp[j].0 as int, sp[j].1 as int) == d by {
            if j > 0 {
                assert(sp[j] == rest[j - 1]);
            } else {
                assert(sp[j] == head);
            }
        }
        assert forall|i: int, j: int| 0 <= i < j < sp.len() implies (#[trigger] sp[i]).1 <= (#[trigger] sp[j]).0 by {
            assert(sp[j] == rest[j - 1]);
            if i > 0 {
                assert(sp[i] == rest[i - 1]);
            } else {
                assert(sp[i] == head);
            }
        }
    } else {
        lemma_literal_spans_shape(d, w, from + 1);
        assert(sp == literal_spans(d, w, from + 1));
    }
}

/// An occurrence at `t` that no other occurrence overlaps is one of the
/// spans found from any position not after it.
pub proof fn lemma_isolated_is_found(d: Seq<u8>, w: Seq<u8>, from: int, t: int)
    requires
        d.len() > 0,
        0 <= from <= t,
        t + d.len() <= w.len(),
        w.len() <= usize::MAX,
        w.subrange(t, t + d.len()) == d,
        forall|r: int|
            t - d.len() < r < t + d.len() && r != t && 0 <= r && r + d.len() <= w.len()
                ==> #[trigger] w.subrange(r, r + d.len()) != d,
    ensures
        exists|j: int|
            0 <= j < literal_spans(d, w, from).len() && (#[trigger] literal_spans(d, w, from)[j]).0 == t,
    decreases w.len() - from,
{
    let sp = literal_spans(d, w, from);
    if w.subrange(from, from + d.len()) == d {
        if from == t {
            assert(sp[0].0 == t);
        } else {
            assert(from + d.len() <= t);
            lemma_isolated_is_found(d, w, from + d.len(), t);
            let rest = literal_spans(d, w, from + d.len());
            let j = choose|j: int| 0 <= j < rest.len() && (#[trigger] rest[j]).0 == t;
            assert(sp[j + 1] == rest[j]);
        }
    } else {
        lemma_isolated_is_found(d, w, from + 1, t);
    }
}

/// Spans in increasing position order have increasing indices.
proof fn lemma_span_index_order(d: Seq<u8>, w: Seq<u8>, a: int, b: int)
    requires
        d.len() > 0,
        w.len() <= usize::MAX,
        0 <= a < literal_spans(d, w, 0).len(),
        0 <= b < literal_spans(d, w, 0).len(),
        literal_spans(d, w, 0)[a].0 < literal_spans(d, w, 0)[b].0,
    ensures
        a < b,
{
    lemma_literal_spans_shape(d, w, 0);
    let sp = literal_spans(d, w, 0);
    if b < a {
        assert(sp[b].1 <= sp[a].0);
    } else if a == b {
    }
}

proof fn lemma_has_offset_push(s: Seq<RecordView>, r: RecordView, o: u64)
    requires
        has_offset(s, o),
    ensures
        has_offset(s.push(r), o),
{
    let j = choose|j: int| 0 <= j < s.len() && #[trigger] s[j].0 == o;
    assert(s.push(r)[j].0 == o);
}

/// The next window's start after a full or a final window when no match
/// moved it.
pub open spec fn default_next(sc: SequentialScan, base: u64, n: int) -> int {
    if n == sc.buffer_size {
        base + n - sc.padding
    } else {
        base + n
    }
}

/// Going through the spans of a literal from span `k` on keeps every
/// isolated occurrence that the scan has passed among the emitted offsets
/// (`prev` before this window, `out` in it).
pub proof fn lemma_scan_spans_catches(
    sc: SequentialScan,
    base: u64,
    window: Seq<u8>,
    k: int,
    prev: Seq<RecordView>,
    out: Seq<RecordView>,
    old_last: Option<u64>,
    d: Seq<u8>,
    data: Seq<u8>,
)
    requires
        d.len() > 0,
        sc.limit == 0,
        !sc.done,
        data.len() < u64::MAX,
        window.len() > 0,
        base + window.len() <= data.len(),
        window == data.subrange(base as int, base + window.len()),
        window.len() <= sc.buffer_size,
        window.len() < sc.buffer_size ==> base + window.len() == data.len(),
        d.len() <= sc.padding + 1,
        sc.padding < sc.buffer_size,
        sc.cursor == default_next(sc, base, window.len() as int),
        0 <= k <= literal_spans(d, window, 0).len(),
        catches(d, data, prev + out, base, old_last),
        forall|j: int|
            0 <= j < k ==> isolated(d, data, base + (#[trigger] literal_spans(d, window, 0)[j]).0)
                ==> has_offset(prev + out, (base + literal_spans(d, window, 0)[j].0) as u64),
        sc.last_emitted == old_last || exists|j: int|
            0 <= j < k && sc.last_emitted == Some(
                (base + (#[trigger] literal_spans(d, window, 0)[j]).0) as u64,
            ),
    ensures
        ({
            let (sc2, out2) = scan_spans(sc, base, window, literal_spans(d, window, 0), k, out);
            catches(d, data, prev + out2, sc2.cursor, sc2.last_emitted)
        }),
    decreases literal_spans(d, window, 0).len() - k,
{
    let spans = literal_spans(d, window, 0);
    let n = window.len() as int;
    let m = d.len() as int;
    lemma_literal_spans_shape(d, window, 0);
    let all = prev + out;
    // An isolated occurrence inside the window is a span, found by index.
    assert forall|q: int|
        isolated(d, data, q) && base <= q && q + m <= base + n implies exists|j: int|
        0 <= j < spans.len() && (#[trigger] spans[j]).0 == q - base by {
        assert(window.subrange(q - base, q - base + m) =~= data.subrange(q, q + m));
        assert forall|r: int|
            (q - base) - m < r < (q - base) + m && r != q - base && 0 <= r && r + m <= n
            implies #[trigger] window.subrange(r, r + m) != d by {
            assert(window.subrange(r, r + m) =~= data.subrange(base + r, base + r + m));
            assert(!occurs_at(d, data, base + r));
        }
        lemma_isolated_is_found(d, window, 0, q - base);
    }
    // An isolated occurrence not after an offset emitted from this window
    // and not before the window is a span before it.
    if k >= spans.len() {
        assert forall|q: int|
            #[trigger] isolated(d, data, q) && (q < sc.cursor || (sc.last_emitted is Some && q
                <= sc.last_emitted->0)) implies has_offset(all, q as u64) by {
            if q < base || (old_last is Some && q <= old_last->0) {
            } else if q < sc.cursor {
                let j = choose|j: int| 0 <= j < spans.len() && (#[trigger] spans[j]).0 == q - base;
            } else {
                let jl = choose|j: int|
                    0 <= j < k && sc.last_emitted == Some((base + (#[trigger] spans[j]).0) as u64);
                let j = choose|j: int| 0 <= j < spans.len() && (#[trigger] spans[j]).0 == q - base;
            }
        }
    } else {
        let o = (base + spans[k].0) as u64;
        if sc.last_emitted is Some && o <= sc.last_emitted->0 {
            if isolated(d, data, o as int) {
                if sc.last_emitted != old_last {
                    let jl = choose|j: int|
                        0 <= j < k && sc.last_emitted == Some((base + (#[trigger] spans[j]).0) as u64);
                    assert(spans[jl].1 <= spans[k].0);
                }
            }
            lemma_scan_spans_catches(sc, base, window, k + 1, prev, out, old_last, d, data);
        } else if spans[k].0 + sc.width > window.len() && window.len() == sc.buffer_size {
            let sc2 = SequentialScan { cursor: o, ..sc };
            assert forall|q: int|
                #[trigger] isolated(d, data, q) && (q < sc2.cursor || (sc2.last_emitted is Some && q
                    <= sc2.last_emitted->0)) implies has_offset(all, q as u64) by {
                if q < base || (old_last is Some && q <= old_last->0) {
                } else if q < o {
                    let j = choose|j: int| 0 <= j < spans.len() && (#[trigger] spans[j]).0 == q - base;
                    lemma_span_index_order(d, window, j, k);
                } else {
                    let jl = choose|j: int|
                        0 <= j < k && sc.last_emitted == Some((base + (#[trigger] spans[j]).0) as u64);
                    let j = choose|j: int| 0 <= j < spans.len() && (#[trigger] spans[j]).0 == q - base;
                    if j != jl {
                        lemma_span_index_order(d, window, j, jl);
                    }
                }
            }
        } else {
            let e = (sc.emitted + 1) as u64;
            let next = SequentialScan {
                last_emitted: Some(o),
                emitted: e,
                done: sc.limit > 0 && e >= sc.limit,
                ..sc
            };
            let rec = record_at(window, base, sc.width, spans[k]);
            let out2 = out.push(rec);
            assert(prev + out2 =~= all.push(rec));
            assert(has_offset(prev + out2, o)) by {
                assert((prev + out2)[all.len() as int].0 == o);
            }
            assert forall|q: int|
                #[trigger] isolated(d, data, q) && (q < base || (old_last is Some && q <= old_last->0))
                implies has_offset(prev + out2, q as u64) by {
                lemma_has_offset_push(all, rec, q as u64);
            }
            assert forall|j: int|
                0 <= j < k + 1 implies isolated(d, data, base + (#[trigger] spans[j]).0) ==> has_offset(
                prev + out2,
                (base + spans[j].0) as u64,
            ) by {
                if j < k && isolated(d, data, base + spans[j].0) {
                    lemma_has_offset_push(all, rec, (base + spans[j].0) as u64);
                }
            }
            assert(next.last_emitted == Some((base + spans[k].0) as u64));
            lemma_scan_spans_catches(next, base, window, k + 1, prev, out2, old_last, d, data);
        }
    }
}


/// Every occurrence of `d` in `data` is isolated: no two overlap.
pub open spec fn all_isolated(d: Seq<u8>, data: Seq<u8>) -> bool {
    forall|q: int| #[trigger] occurs_at(d, data, q) ==> isolated(d, data, q)
}

/// The offsets of `out` are exactly the positions where `d` occurs in `data`.
pub open spec fn reports_exactly(out: Seq<RecordView>, d: Seq<u8>, data: Seq<u8>) -> bool {
    forall|q: int| 0 <= q < data.len() ==> (has_offset(out, q as u64) <==> #[trigger] occurs_at(d, data, q))
}

/// Every record of `out` starts at an occurrence of `d`.
pub open spec fn at_occurrences(out: Seq<RecordView>, d: Seq<u8>, data: Seq<u8>) -> bool {
    forall|j: int| 0 <= j < out.len() ==> occurs_at(d, data, (#[trigger] out[j]).0 as int)
}

/// Records at occurrences that catch every isolated occurrence report
/// exactly the occurrences, when all occurrences are isolated.
pub proof fn lemma_reports_exactly(out: Seq<RecordView>, d: Seq<u8>, data: Seq<u8>)
    requires
        all_isolated(d, data),
        at_occurrences(out, d, data),
        forall|q: int| #[trigger] isolated(d, data, q) ==> has_offset(out, q as u64),
        data.len() < u64::MAX,
    ensures
        reports_exactly(out, d, data),
{
    assert forall|q: int| 0 <= q < data.len() implies (has_offset(out, q as u64) <==> #[trigger] occurs_at(
        d,
        data,
        q,
    )) by {
        if has_offset(out, q as u64) {
            let j = choose|j: int| 0 <= j < out.len() && #[trigger] out[j].0 == q as u64;
            assert(occurs_at(d, data, out[j].0 as int));
        }
        if occurs_at(d, data, q) {
            assert(isolated(d, data, q));
        }
    }
}

/// A span of a literal in a window read at `base` is an occurrence in the data.
pub proof fn lemma_span_occurs(d: Seq<u8>, data: Seq<u8>, base: int, window: Seq<u8>, k: int)
    requires
        d.len() > 0,
        0 <= base,
        base + window.len() <= data.len(),
        window == data.subrange(base, base + window.len()),
        window.len() <= usize::MAX,
        0 <= k < literal_spans(d, window, 0).len(),
    ensures
        occurs_at(d, data, base + literal_spans(d, window, 0)[k].0),
{
    lemma_literal_spans_shape(d, window, 0);
    let s = literal_spans(d, window, 0)[k].0 as int;
    assert(window.subrange(s, s + d.len()) =~= data.subrange(base + s, base + s + d.len()));
}


/// A chunk keeps the span `j` when it starts in its range and its bytes.
proof fn lemma_chunk_keeps_span(
    data: Seq<u8>,
    start: u64,
    length: usize,
    width: usize,
    spans: Seq<(usize, usize)>,
    j: int,
)
    requires
        0 <= j < spans.len(),
        spans[j].0 < length,
        spans[j].0 < data.len(),
    ensures
        has_offset(chunk_records(data, start, length, width, spans), (start + spans[j].0) as u64),
    decreases spans.len(),
{
    let pre = chunk_records(data, start, length, width, spans.drop_last());
    let sp = spans.last();
    if j == spans.len() - 1 {
        let rec = record_at(data, start, width, sp);
        assert(pre.push(rec)[pre.len() as int].0 == (start + spans[j].0) as u64);
    } else {
        assert(spans.drop_last()[j] == spans[j]);
        lemma_chunk_keeps_span(data, start, length, width, spans.drop_last(), j);
        if sp.0 < length && sp.0 < data.len() {
            lemma_has_offset_push(pre, record_at(data, start, width, sp), (start + spans[j].0) as u64);
        }
    }
}

/// Every record a chunk keeps comes from one of the spans.
pub proof fn lemma_chunk_records_origin(
    data: Seq<u8>,
    start: u64,
    length: usize,
    width: usize,
    spans: Seq<(usize, usize)>,
)
    ensures
        forall|y: int|
            0 <= y < chunk_records(data, start, length, width, spans).len() ==> exists|k: int|
                0 <= k < spans.len() && (#[trigger] chunk_records(data, start, length, width, spans)[y]).0
                    == (start + (#[trigger] spans[k]).0) as u64,
    decreases spans.len(),
{
    if spans.len() > 0 {
        let short = spans.drop_last();
        lemma_chunk_records_origin(data, start, length, width, short);
        let pre = chunk_records(data, start, length, width, short);
        let all = chunk_records(data, start, length, width, spans);
        assert forall|y: int| 0 <= y < all.len() implies exists|k: int|
            0 <= k < spans.len() && (#[trigger] all[y]).0 == (start + (#[trigger] spans[k]).0) as u64 by {
            if y < pre.len() {
                assert(all[y] == pre[y]);
                let k = choose|k: int|
                    0 <= k < short.len() && (#[trigger] pre[y]).0 == (start + (#[trigger] short[k]).0) as u64;
                assert(short[k] == spans[k]);
            } else {
                assert(all[y].0 == (start + spans[spans.len() - 1].0) as u64);
            }
        }
    }
}

/// A chunk of a literal scan keeps every isolated occurrence that starts in
/// its range, when the literal is at most one byte longer than the overlap,
/// and keeps only occurrences.
pub proof fn lemma_chunk_catches(
    d: Seq<u8>,
    data: Seq<u8>,
    start: u64,
    length: usize,
    overlap: usize,
    chunk_size: usize,
    max_overlap: usize,
    region: Seq<u8>,
    shown: Seq<u8>,
    width: usize,
    found: Seq<RecordView>,
)
    requires
        d.len() > 0,
        data.len() < u64::MAX,
        start + length + overlap <= data.len(),
        region == data.subrange(start as int, start + length + overlap),
        region.len() <= shown.len() <= usize::MAX,
        found == chunk_records(shown, start, length, width, literal_spans(d, region, 0)),
    ensures
        d.len() <= max_overlap + 1 && (length == chunk_size || start + length == data.len()) && (overlap
            == max_overlap || start + length + overlap == data.len()) ==> forall|q: int|
            #[trigger] isolated(d, data, q) && start <= q < start + length ==> has_offset(found, q as u64),
        forall|y: int| 0 <= y < found.len() ==> occurs_at(d, data, (#[trigger] found[y]).0 as int),
{
    let m = d.len() as int;
    let n = region.len() as int;
    let spans = literal_spans(d, region, 0);
    if d.len() <= max_overlap + 1 && (length == chunk_size || start + length == data.len()) && (overlap
        == max_overlap || start + length + overlap == data.len()) {
    assert forall|q: int|
        #[trigger] isolated(d, data, q) && start <= q < start + length implies has_offset(found, q as u64) by {
        let t = q - start;
        assert(q + m <= start + n);
        assert(region.subrange(t, t + m) =~= data.subrange(q, q + m));
        assert forall|r: int|
            t - m < r < t + m && r != t && 0 <= r && r + m <= n implies #[trigger] region.subrange(r, r + m)
            != d by {
            assert(region.subrange(r, r + m) =~= data.subrange(start + r, start + r + m));
            assert(!occurs_at(d, data, start + r));
        }
        lemma_isolated_is_found(d, region, 0, t);
        let j = choose|j: int| 0 <= j < spans.len() && (#[trigger] spans[j]).0 == t;
        lemma_chunk_keeps_span(shown, start, length, width, spans, j);
    }
    }
    lemma_chunk_records_origin(shown, start, length, width, spans);
    assert forall|y: int| 0 <= y < found.len() implies occurs_at(d, data, (#[trigger] found[y]).0 as int) by {
        let k = choose|k: int|
            0 <= k < spans.len() && (#[trigger] found[y]).0 == (start + (#[trigger] spans[k]).0) as u64;
        lemma_span_occurs(d, data, start as int, region, k);
    }
}


/// An offset of `a` is an offset of `b` when both report exactly the
/// occurrences of `d`.
proof fn lemma_offset_shared(a: Seq<RecordView>, b: Seq<RecordView>, d: Seq<u8>, data: Seq<u8>, i: int)
    requires
        reports_exactly(b, d, data),
        at_occurrences(a, d, data),
        d.len() > 0,
        0 <= i < a.len(),
    ensures
        exists|k: int| 0 <= k < b.len() && #[trigger] b[k].0 == a[i].0,
{
    let x = a[i].0;
    assert(occurs_at(d, data, a[i].0 as int));
    assert(has_offset(b, (x as int) as u64));
}

/// Every offset of `a` is an offset of `b`.
#[verifier::opaque]
pub open spec fn offsets_within_list(a: Seq<RecordView>, b: Seq<RecordView>) -> bool {
    forall|i: int| 0 <= i < a.len() ==> #[trigger] has_offset(b, a[i].0)
}

proof fn lemma_find_offset(a: Seq<RecordView>, b: Seq<RecordView>, i: int) -> (k: int)
    requires
        offsets_within_list(a, b),
        0 <= i < a.len(),
    ensures
        0 <= k < b.len() && b[k].0 == a[i].0,
{
    reveal(offsets_within_list);
    assert(has_offset(b, a[i].0));
    choose|k: int| 0 <= k < b.len() && #[trigger] b[k].0 == a[i].0
}

proof fn lemma_same_prefix(a: Seq<RecordView>, b: Seq<RecordView>, j: int)
    requires
        ordered_after(a, None),
        ordered_after(b, None),
        offsets_within_list(a, b),
        offsets_within_list(b, a),
        0 <= j <= a.len(),
        j <= b.len(),
    ensures
        forall|i: int| 0 <= i < j ==> (#[trigger] a[i]).0 == b[i].0,
    decreases j,
{
    if j > 0 {
        let i = j - 1;
        lemma_same_prefix(a, b, i);
        if a[i].0 < b[i].0 {
            let k = lemma_find_offset(a, b, i);
            if k > i {
                lemma_ordered_strict(b, i, k);
            } else if k < i {
                assert(a[k].0 == b[k].0);
                lemma_ordered_strict(a, k, i);
            }
        } else if b[i].0 < a[i].0 {
            let k = lemma_find_offset(b, a, i);
            if k > i {
                lemma_ordered_strict(a, i, k);
            } else if k < i {
                assert(a[k].0 == b[k].0);
                lemma_ordered_strict(b, k, i);
            }
        }
    }
}

proof fn lemma_shared_offsets(a: Seq<RecordView>, b: Seq<RecordView>, d: Seq<u8>, data: Seq<u8>)
    requires
        reports_exactly(b, d, data),
        at_occurrences(a, d, data),
        d.len() > 0,
    ensures
        offsets_within_list(a, b),
{
    reveal(offsets_within_list);
    assert forall|i: int| 0 <= i < a.len() implies #[trigger] has_offset(b, a[i].0) by {
        lemma_offset_shared(a, b, d, data, i);
    }
}

/// Two scans that each report, in strictly increasing order, exactly the
/// occurrences of a literal list the same offsets in the same order. With
/// the guarantees of `scan_sequential` and `scan_parallel` this is their
/// agreement: for a literal whose occurrences never overlap, no longer than
/// the window padding and the chunk overlap plus one byte, and no limit,
/// both return the same offsets, sorted and without duplicates.
pub proof fn same_offsets_in_order(a: Seq<RecordView>, b: Seq<RecordView>, d: Seq<u8>, data: Seq<u8>)
    requires
        ordered_after(a, None),
        ordered_after(b, None),
        reports_exactly(a, d, data),
        reports_exactly(b, d, data),
        at_occurrences(a, d, data),
        at_occurrences(b, d, data),
        d.len() > 0,
    ensures
        a.len() == b.len(),
        forall|j: int| 0 <= j < a.len() ==> (#[trigger] a[j]).0 == b[j].0,
{
    lemma_shared_offsets(a, b, d, data);
    lemma_shared_offsets(b, a, d, data);
    if a.len() < b.len() {
        lemma_same_prefix(a, b, a.len() as int);
        let k = lemma_find_offset(b, a, a.len() as int);
        assert(a[k].0 == b[k].0);
        lemma_ordered_strict(b, k, a.len() as int);
    } else if b.len() < a.len() {
        lemma_same_prefix(a, b, b.len() as int);
        let k = lemma_find_offset(a, b, b.len() as int);
        assert(a[k].0 == b[k].0);
        lemma_ordered_strict(a, k, b.len() as int);
    } else {
        lemma_same_prefix(a, b, a.len() as int);
    }
}


/// When `d` occurs in `data` exactly at the strictly increasing positions
/// `positions`, a scan that reports exactly the occurrences, in strictly
/// increasing order, returns one record per position, at those positions and
/// in that order. With the guarantees of `scan_sequential` and
/// `scan_parallel`, a file holding a byte literal at a few scattered places
/// and nowhere else (with no overlap between them) gives exactly those
/// matches under either scan.
pub proof fn reports_listed_occurrences(
    out: Seq<RecordView>,
    d: Seq<u8>,
    data: Seq<u8>,
    positions: Seq<u64>,
)
    requires
        d.len() > 0,
        ordered_after(out, None),
        reports_exactly(out, d, data),
        at_occurrences(out, d, data),
        forall|i: int, j: int| 0 <= i < j < positions.len() ==> positions[i] < positions[j],
        forall|q: int|
            #[trigger] occurs_at(d, data, q) <==> exists|k: int|
                0 <= k < positions.len() && positions[k] == q,
    ensures
        out.len() == positions.len(),
        forall|j: int| 0 <= j < out.len() ==> (#[trigger] out[j]).0 == positions[j],
{
    let listed = Seq::new(positions.len(), |k: int| (positions[k], Seq::<u8>::empty(), None::<usize>));
    assert forall|k: int| 0 <= k < listed.len() implies occurs_at(d, data, (#[trigger] listed[k]).0 as int) by {
        assert(positions[k] == listed[k].0);
    }
    assert forall|q: int| 0 <= q < data.len() implies (has_offset(listed, q as u64) <==> #[trigger] occurs_at(
        d,
        data,
        q,
    )) by {
        if occurs_at(d, data, q) {
            let k = choose|k: int| 0 <= k < positions.len() && positions[k] == q;
            assert(listed[k].0 == q as u64);
        }
        if has_offset(listed, q as u64) {
            let k = choose|k: int| 0 <= k < listed.len() && #[trigger] listed[k].0 == q as u64;
            assert(occurs_at(d, data, listed[k].0 as int));
        }
    }
    assert forall|j: int| 0 < j < listed.len() implies listed[j - 1].0 < (#[trigger] listed[j]).0 by {
        assert(positions[j - 1] < positions[j]);
    }
    same_offsets_in_order(out, listed, d, data);
}

} // verus!
