use vstd::prelude::*;

use crate::boundary::{
    all_isolated, at_occurrences, isolated, lemma_chunk_catches, lemma_chunk_records_origin,
    lemma_reports_exactly, occurs_at,
    reports_exactly,
};
use crate::regex_processor::{literal_pattern, literal_spans, regex_spans, spans_well_formed, CompiledPattern};
use crate::stream::{
    has_offset, shows_source, lemma_line_count, line_count, min_int, ordered_after, record_at, views,
    MatchRecord, RecordView,
};

verus! {

/// One unit of parallel work: the nominal range `[start, start + length)`,
/// read together with `overlap` more bytes so that a match starting near
/// the end of the range is seen whole.
#[derive(Debug, Clone, Copy, PartialEq, Eq)]
pub struct Chunk {
    /// Absolute offset of the range.
    pub start: u64,
    /// Length of the nominal range.
    pub length: usize,
    /// Bytes read past the range; none past the end of the file.
    pub overlap: usize,
}

/// The overlap of a chunk size: a tenth of it, at most 1024 bytes.
pub open spec fn overlap_for(chunk_size: usize) -> usize {
    if chunk_size / 10 < 1024 {
        (chunk_size / 10) as usize
    } else {
        1024
    }
}

/// Chunk `i` of a file of `file_len` bytes cut into `chunk_size` pieces.
pub open spec fn chunk_at(file_len: u64, chunk_size: usize, i: int) -> Chunk {
    let start = i * chunk_size;
    let length = min_int(chunk_size as int, file_len - start);
    Chunk {
        start: start as u64,
        length: length as usize,
        overlap: min_int(overlap_for(chunk_size) as int, file_len - start - length) as usize,
    }
}

/// The chunks that cover a file of `file_len` bytes, in order.
pub open spec fn chunk_plan(file_len: u64, chunk_size: usize) -> Seq<Chunk> {
    Seq::new(
        line_count(file_len as nat, chunk_size as nat),
        |i: int| chunk_at(file_len, chunk_size, i),
    )
}

/// Cuts `[0, file_len)` into consecutive chunks of `chunk_size` bytes (the
/// last one possibly shorter), each with the overlap of the chunk size, cut
/// at the end of the file.
pub fn plan_chunks(file_len: u64, chunk_size: usize) -> (r: Vec<Chunk>)
    requires
        chunk_size >= 1,
        file_len + chunk_size <= u64::MAX,
    ensures
        r@ == chunk_plan(file_len, chunk_size),
{
    let overlap = if chunk_size / 10 < 1024 {
        chunk_size / 10
    } else {
        1024
    };
    let mut r: Vec<Chunk> = Vec::new();
    let mut start: u64 = 0;
    let ghost mut i: nat = 0;
    let ghost total = line_count(file_len as nat, chunk_size as nat);
    proof {
        lemma_line_count(file_len as nat, chunk_size as nat, 0);
    }
    while start < file_len
        invariant
            chunk_size >= 1,
            file_len + chunk_size <= u64::MAX,
            overlap == overlap_for(chunk_size),
            total == line_count(file_len as nat, chunk_size as nat),
            start == i * chunk_size,
            i <= total,
            start < file_len ==> i < total,
            start >= file_len ==> i == total,
            r@ == Seq::new(i as nat, |j: int| chunk_at(file_len, chunk_size, j)),
        decreases total - i,
    {
        proof {
            lemma_line_count(file_len as nat, chunk_size as nat, (i + 1) as nat);
            assert((i + 1) * chunk_size == i * chunk_size + chunk_size) by (nonlinear_arith);
            assert(i <= i * chunk_size) by (nonlinear_arith)
                requires
                    chunk_size >= 1,
            ;
        }
        let remaining = file_len - start;
        let length: usize = if remaining < chunk_size as u64 {
            remaining as usize
        } else {
            chunk_size
        };
        let after = remaining - length as u64;
        let tail: usize = if after < overlap as u64 {
            after as usize
        } else {
            overlap
        };
        let c = Chunk { start, length, overlap: tail };
        assert(c == chunk_at(file_len, chunk_size, i as int));
        r.push(c);
        assert(r@ =~= Seq::new((i + 1) as nat, |j: int| chunk_at(file_len, chunk_size, j)));
        start = start + chunk_size as u64;
        proof {
            i = i + 1;
        }
    }
    r
}

/// The records that a chunk keeps from `spans`, the matches in its bytes
/// `data` read at `start`: those that start inside its nominal range of
/// `length` bytes and inside the bytes read, in order.
pub open spec fn chunk_records(
    data: Seq<u8>,
    start: u64,
    length: usize,
    width: usize,
    spans: Seq<(usize, usize)>,
) -> Seq<RecordView>
    decreases spans.len(),
{
    if spans.len() == 0 {
        Seq::empty()
    } else {
        let pre = chunk_records(data, start, length, width, spans.drop_last());
        let sp = spans.last();
        if sp.0 < length && sp.0 < data.len() {
            pre.push(record_at(data, start, width, sp))
        } else {
            pre
        }
    }
}

/// Each record starts inside `data` and shows `width` of its bytes from
/// there, or up to the end of `data`; `base` is where `data` starts in the
/// source.
pub open spec fn shows_prefix_at(recs: Seq<RecordView>, data: Seq<u8>, base: int, width: usize) -> bool {
    forall|j: int|
        0 <= j < recs.len() ==> {
            let s = (#[trigger] recs[j]).0 - base;
            &&& 0 <= s < data.len()
            &&& recs[j].1 == data.subrange(s, min_int(s + width, data.len() as int))
        }
}

/// How many of the `n` bytes read for `c` are searched: its range and
/// overlap; the rest is read only to show matches in full.
pub open spec fn search_len(c: Chunk, n: int) -> int {
    min_int(c.length + c.overlap, n)
}

/// All offsets lie in `[lo, hi)`.
pub open spec fn offsets_within(recs: Seq<RecordView>, lo: int, hi: int) -> bool {
    forall|j: int| 0 <= j < recs.len() ==> lo <= (#[trigger] recs[j]).0 < hi
}

/// Scans the bytes `data` read at `chunk.start` and keeps the matches that
/// start in the chunk's nominal range. Only the range and the overlap are
/// searched; bytes read past them only complete what a match shows, which is
/// `width` bytes from its start or up to the end of `data`.
pub fn scan_chunk(data: &[u8], chunk: &Chunk, pattern: &CompiledPattern, width: usize) -> (out: Vec<
    MatchRecord,
>)
    requires
        chunk.start + data@.len() <= u64::MAX,
    ensures
        views(out@) == chunk_records(
            data@,
            chunk.start,
            chunk.length,
            width,
            regex_spans(pattern@, data@.subrange(0, search_len(*chunk, data@.len() as int))),
        ),
        ordered_after(views(out@), None),
        offsets_within(views(out@), chunk.start as int, chunk.start + chunk.length),
        shows_prefix_at(views(out@), data@, chunk.start as int, width),
        forall|bs: Seq<u8>|
            bs.len() > 0 && pattern@ == literal_pattern(bs) ==> regex_spans(
                pattern@,
                data@.subrange(0, search_len(*chunk, data@.len() as int)),
            ) == literal_spans(bs, data@.subrange(0, search_len(*chunk, data@.len() as int)), 0),
{
    let n = data.len();
    let scan_len = if chunk.overlap <= n && chunk.length <= n - chunk.overlap {
        chunk.length + chunk.overlap
    } else {
        n
    };
    let spans = pattern.find_all(&data[0..scan_len]);
    assert(spans_well_formed(spans@, n as int));
    let mut out: Vec<MatchRecord> = Vec::new();
    let mut k: usize = 0;
    assert(spans@.take(0) =~= Seq::<(usize, usize)>::empty());
    assert(views(out@) =~= Seq::<RecordView>::empty());
    while k < spans.len()
        invariant
            n == data@.len(),
            chunk.start + n <= u64::MAX,
            spans@ == regex_spans(pattern@, data@.subrange(0, search_len(*chunk, n as int))),
            spans_well_formed(spans@, n as int),
            k <= spans@.len(),
            views(out@) == chunk_records(data@, chunk.start, chunk.length, width, spans@.take(k as int)),
            ordered_after(views(out@), None),
            offsets_within(views(out@), chunk.start as int, chunk.start + chunk.length),
            shows_prefix_at(views(out@), data@, chunk.start as int, width),
            k < spans@.len() && out@.len() > 0 ==> views(out@).last().0 < chunk.start + spans@[k as int].0,
        decreases spans@.len() - k,
    {
        let (s, e) = spans[k];
        let ghost before = views(out@);
        proof {
            lemma_chunk_push(data@, chunk.start, chunk.length, width, spans@, k as int, before);
        }
        if s < chunk.length && s < n {
            let end = if width <= n - s {
                s + width
            } else {
                n
            };
            let bytes = vstd::slice::slice_to_vec(&data[s..end]);
            let rec = MatchRecord { offset: chunk.start + s as u64, bytes, match_len: Some(e - s) };
            assert(rec@ == record_at(data@, chunk.start, width, (s, e)));
            out.push(rec);
            assert(views(out@) =~= before.push(rec@));
        }
        k = k + 1;
    }
    assert(spans@.take(k as int) =~= spans@);
    out
}

/// Taking one more span keeps the chunk's records ordered, in its range and
/// showing the data.
proof fn lemma_chunk_push(
    data: Seq<u8>,
    start: u64,
    length: usize,
    width: usize,
    spans: Seq<(usize, usize)>,
    k: int,
    before: Seq<RecordView>,
)
    requires
        spans_well_formed(spans, data.len() as int),
        0 <= k < spans.len(),
        start + data.len() <= u64::MAX,
        before == chunk_records(data, start, length, width, spans.take(k)),
        ordered_after(before, None),
        offsets_within(before, start as int, start + length),
        shows_prefix_at(before, data, start as int, width),
        before.len() > 0 ==> before.last().0 < start + spans[k].0,
    ensures
        ({
            let after = chunk_records(data, start, length, width, spans.take(k + 1));
            &&& after == if spans[k].0 < length && spans[k].0 < data.len() {
                before.push(record_at(data, start, width, spans[k]))
            } else {
                before
            }
            &&& ordered_after(after, None)
            &&& offsets_within(after, start as int, start + length)
            &&& shows_prefix_at(after, data, start as int, width)
            &&& (k + 1 < spans.len() && after.len() > 0 ==> after.last().0 < start + spans[k + 1].0)
        }),
{
    assert(spans.take(k + 1).drop_last() =~= spans.take(k));
    assert(spans.take(k + 1).last() == spans[k]);
    let after = chunk_records(data, start, length, width, spans.take(k + 1));
    if spans[k].0 < length && spans[k].0 < data.len() {
        let rec = record_at(data, start, width, spans[k]);
        assert forall|j: int| 0 < j < after.len() implies after[j - 1].0 < (#[trigger] after[j]).0 by {
            if j < before.len() {
                assert(after[j] == before[j]);
                assert(after[j - 1] == before[j - 1]);
            }
        }
        assert forall|j: int| 0 <= j < after.len() implies start <= (#[trigger] after[j]).0 < start
            + length by {
            if j < before.len() {
                assert(after[j] == before[j]);
            }
        }
        assert forall|j: int| 0 <= j < after.len() implies {
            let t = (#[trigger] after[j]).0 - start;
            &&& 0 <= t < data.len()
            &&& after[j].1 == data.subrange(t, min_int(t + width, data.len() as int))
        } by {
            if j < before.len() {
                assert(after[j] == before[j]);
            }
        }
    }
}

/// `r` again, with its own copy of the bytes.
fn copy_record(r: &MatchRecord) -> (c: MatchRecord)
    ensures
        c@ == r@,
{
    MatchRecord {
        offset: r.offset,
        bytes: vstd::slice::slice_to_vec(r.bytes.as_slice()),
        match_len: r.match_len,
    }
}

/// Some list of `lists` holds `v`.
pub open spec fn appears_in(lists: Seq<Seq<RecordView>>, v: RecordView) -> bool {
    exists|a: int, b: int| 0 <= a < lists.len() && 0 <= b < lists[a].len() && #[trigger] lists[a][b] == v
}

/// The views of a list of record lists.
pub open spec fn list_views(results: Seq<Vec<MatchRecord>>) -> Seq<Seq<RecordView>> {
    results.map_values(|l: Vec<MatchRecord>| views(l@))
}

/// What merging the lists in `lists` into `out` gives, with limit `limit`:
/// strictly increasing offsets (sorted, one record per offset), records
/// taken from the lists, every offset of the lists present unless the limit
/// cut it off after the last kept one, and at most `limit` records.
pub open spec fn merged(lists: Seq<Seq<RecordView>>, out: Seq<RecordView>, limit: usize) -> bool {
    &&& ordered_after(out, None)
    &&& forall|j: int| 0 <= j < out.len() ==> appears_in(lists, #[trigger] out[j])
    &&& forall|a: int, b: int|
        0 <= a < lists.len() && 0 <= b < lists[a].len() ==> has_offset(out, (#[trigger] lists[a][b]).0)
            || (limit > 0 && out.len() == limit && lists[a][b].0 > out.last().0)
    &&& limit > 0 ==> out.len() <= limit
}

/// Puts a copy of `r` into `acc`, which is sorted by strictly increasing
/// offset, unless a record with its offset is there already.
fn insert_sorted(acc: &mut Vec<MatchRecord>, r: &MatchRecord)
    requires
        ordered_after(views(old(acc)@), None),
    ensures
        ordered_after(views(final(acc)@), None),
        has_offset(views(final(acc)@), r.offset),
        forall|o: u64| has_offset(views(old(acc)@), o) ==> #[trigger] has_offset(views(final(acc)@), o),
        forall|j: int|
            0 <= j < final(acc)@.len() ==> #[trigger] views(final(acc)@)[j] == r@ || views(
                old(acc)@,
            ).contains(views(final(acc)@)[j]),
{
    let ghost before = views(acc@);
    let o = r.offset;
    let mut i: usize = acc.len();
    while i > 0 && acc[i - 1].offset > o
        invariant
            i <= acc@.len(),
            views(acc@) == before,
            forall|j: int| i <= j < acc@.len() ==> views(acc@)[j].0 > o,
        decreases i,
    {
        i = i - 1;
    }
    if i > 0 && acc[i - 1].offset == o {
        assert(before[i - 1].0 == o);
        assert forall|j: int| 0 <= j < acc@.len() implies #[trigger] views(acc@)[j] == r@ || before.contains(
            views(acc@)[j],
        ) by {
            assert(before[j] == views(acc@)[j]);
        }
    } else {
        let c = copy_record(r);
        acc.insert(i, c);
        let ghost after = views(acc@);
        assert(after =~= before.insert(i as int, r@));
        assert(after[i as int].0 == o);
        assert forall|o2: u64| has_offset(before, o2) implies #[trigger] has_offset(after, o2) by {
            let j0 = choose|j: int| 0 <= j < before.len() && #[trigger] before[j].0 == o2;
            if j0 < i {
                assert(after[j0].0 == o2);
            } else {
                assert(after[j0 + 1].0 == o2);
            }
        }
        assert forall|j: int| 0 <= j < after.len() implies #[trigger] after[j] == r@ || before.contains(
            after[j],
        ) by {
            if j < i {
                assert(before[j] == after[j]);
            } else if j > i {
                assert(before[j - 1] == after[j]);
            }
        }
        assert forall|j: int| 0 < j < after.len() implies after[j - 1].0 < (#[trigger] after[j]).0 by {
            if j < i {
            } else if j == i {
            } else if j == i + 1 {
            } else {
                assert(after[j - 1] == before[j - 2]);
            }
        }
    }
}

/// Every offset of the lists before `a`, and of list `a` before `b`, is in `acc`.
pub open spec fn covers(acc: Seq<RecordView>, lists: Seq<Seq<RecordView>>, a: int, b: int) -> bool {
    forall|x: int, y: int|
        ((0 <= x < a && 0 <= y < lists[x].len()) || (x == a && 0 <= y < b)) ==> has_offset(
            acc,
            (#[trigger] lists[x][y]).0,
        )
}

/// Merges the records of all chunks: sorted by offset, one per offset (which
/// of several records with one offset is kept is not specified), cut to the
/// first `limit` when `limit` is positive.
pub fn merge_chunk_results(results: &Vec<Vec<MatchRecord>>, limit: usize) -> (out: Vec<MatchRecord>)
    ensures
        merged(list_views(results@), views(out@), limit),
{
    let ghost lists = list_views(results@);
    let mut acc: Vec<MatchRecord> = Vec::new();
    let mut a: usize = 0;
    assert(views(acc@) =~= Seq::<RecordView>::empty());
    while a < results.len()
        invariant
            a <= results@.len(),
            lists == list_views(results@),
            lists.len() == results@.len(),
            ordered_after(views(acc@), None),
            forall|j: int| 0 <= j < acc@.len() ==> appears_in(lists, #[trigger] views(acc@)[j]),
            covers(views(acc@), lists, a as int, 0),
        decreases results@.len() - a,
    {
        let list = &results[a];
        let mut b: usize = 0;
        assert(lists[a as int] == views(list@));
        while b < list.len()
            invariant
                a < results@.len(),
                b <= list@.len(),
                lists == list_views(results@),
                lists.len() == results@.len(),
                lists[a as int] == views(list@),
                ordered_after(views(acc@), None),
                forall|j: int| 0 <= j < acc@.len() ==> appears_in(lists, #[trigger] views(acc@)[j]),
                covers(views(acc@), lists, a as int, b as int),
            decreases list@.len() - b,
        {
            let r = &list[b];
            let ghost before = views(acc@);
            assert(lists[a as int][b as int] == r@);
            insert_sorted(&mut acc, r);
            let ghost after = views(acc@);
            assert forall|j: int| 0 <= j < after.len() implies appears_in(lists, #[trigger] after[j]) by {
                if after[j] != r@ {
                    let k = choose|k: int| 0 <= k < before.len() && before[k] == after[j];
                    assert(appears_in(lists, before[k]));
                }
            }
            assert forall|x: int, y: int|
                ((0 <= x < a && 0 <= y < lists[x].len()) || (x == a && 0 <= y < b + 1)) implies has_offset(
                after,
                (#[trigger] lists[x][y]).0,
            ) by {
                if x == a && y == b {
                } else {
                    assert(has_offset(before, lists[x][y].0));
                }
            }
            b = b + 1;
        }
        assert forall|x: int, y: int|
            ((0 <= x < a + 1 && 0 <= y < lists[x].len()) || (x == a + 1 && 0 <= y < 0)) implies has_offset(
            views(acc@),
            (#[trigger] lists[x][y]).0,
        ) by {
            if x == a {
                assert(lists[x].len() == list@.len());
            }
        }
        a = a + 1;
    }
    let ghost full = views(acc@);
    if limit > 0 && acc.len() > limit {
        acc.truncate(limit);
        assert(views(acc@) =~= full.take(limit as int));
        assert forall|x: int, y: int|
            0 <= x < lists.len() && 0 <= y < lists[x].len() implies has_offset(
            views(acc@),
            (#[trigger] lists[x][y]).0,
        ) || (limit > 0 && views(acc@).len() == limit && lists[x][y].0 > views(acc@).last().0) by {
            assert(has_offset(full, lists[x][y].0));
            let j0 = choose|j: int| 0 <= j < full.len() && #[trigger] full[j].0 == lists[x][y].0;
            if j0 < limit {
                assert(views(acc@)[j0].0 == lists[x][y].0);
            } else {
                lemma_ordered_strict(full, limit - 1, j0);
            }
        }
        assert forall|j: int| 0 <= j < views(acc@).len() implies appears_in(lists, #[trigger] views(acc@)[j]) by {
            assert(views(acc@)[j] == full[j]);
        }
    } else {
        assert forall|x: int, y: int|
            0 <= x < lists.len() && 0 <= y < lists[x].len() implies has_offset(
            views(acc@),
            (#[trigger] lists[x][y]).0,
        ) by {
        }
    }
    acc
}

pub proof fn lemma_ordered_strict(s: Seq<RecordView>, i: int, j: int)
    requires
        ordered_after(s, None),
        0 <= i < j < s.len(),
    ensures
        s[i].0 < s[j].0,
    decreases j - i,
{
    if i + 1 < j {
        lemma_ordered_strict(s, i, j - 1);
    }
}


/// The bytes read for chunk `i`: its range and overlap.
pub open spec fn chunk_bytes(data: Seq<u8>, chunk_size: usize, i: int) -> Seq<u8> {
    let c = chunk_at(data.len() as u64, chunk_size, i);
    data.subrange(c.start as int, c.start + c.length + c.overlap)
}

/// The bytes read for chunk `i` with display width `width`: its range and
/// overlap, and `width` more to show matches in full, cut at the end.
pub open spec fn chunk_read(data: Seq<u8>, chunk_size: usize, width: usize, i: int) -> Seq<u8> {
    let c = chunk_at(data.len() as u64, chunk_size, i);
    data.subrange(c.start as int, min_int(c.start + c.length + c.overlap + width, data.len() as int))
}

/// The records that chunk `i` keeps.
pub open spec fn chunk_result(pattern: Seq<char>, data: Seq<u8>, chunk_size: usize, width: usize, i: int) -> Seq<
    RecordView,
> {
    let c = chunk_at(data.len() as u64, chunk_size, i);
    chunk_records(
        chunk_read(data, chunk_size, width, i),
        c.start,
        c.length,
        width,
        regex_spans(pattern, chunk_bytes(data, chunk_size, i)),
    )
}

/// The records of every chunk of `data`, chunk by chunk.
pub open spec fn chunk_results(pattern: Seq<char>, data: Seq<u8>, chunk_size: usize, width: usize) -> Seq<
    Seq<RecordView>,
> {
    Seq::new(
        line_count(data.len(), chunk_size as nat),
        |i: int| chunk_result(pattern, data, chunk_size, width, i),
    )
}

/// `off` is where the engine found a match of `pattern` in the bytes read
/// for some chunk.
pub open spec fn chunk_match_at(pattern: Seq<char>, data: Seq<u8>, chunk_size: usize, off: u64) -> bool {
    exists|i: int, kk: int|
        0 <= i && 0 <= kk < regex_spans(pattern, chunk_bytes(data, chunk_size, i)).len() && (chunk_at(
            data.len() as u64,
            chunk_size,
            i,
        ).start + (#[trigger] regex_spans(pattern, chunk_bytes(data, chunk_size, i))[kk]).0) as u64 == off
}

/// `v` starts inside `data` and shows `width` of its bytes from its offset,
/// or up to the end of the data.
pub open spec fn shows_data(v: RecordView, data: Seq<u8>, width: usize) -> bool {
    &&& v.0 < data.len()
    &&& v.1 == data.subrange(v.0 as int, min_int(v.0 + width, data.len() as int))
}

/// Scans `data` chunk by chunk, as the parallel matcher does with a file of
/// that length, and merges the chunks' records. The records come sorted by
/// strictly increasing offset, one per offset, each within the data and
/// showing `width` of its bytes from its offset (or up to the end), as the
/// sequential scan shows them; at most `limit` of them when `limit` is
/// positive; none for empty data.
pub fn scan_parallel(
    data: &[u8],
    pattern: &CompiledPattern,
    chunk_size: usize,
    width: usize,
    limit: usize,
) -> (out: Vec<MatchRecord>)
    requires
        chunk_size >= 1,
        data@.len() + chunk_size <= u64::MAX,
    ensures
        merged(chunk_results(pattern@, data@, chunk_size, width), views(out@), limit),
        ordered_after(views(out@), None),
        shows_source(views(out@), data@, width),
        forall|j: int| 0 <= j < out@.len() ==> shows_data(#[trigger] views(out@)[j], data@, width),
        forall|j: int|
            0 <= j < out@.len() ==> chunk_match_at(pattern@, data@, chunk_size, (#[trigger] out@[j]).offset),
        limit > 0 ==> out@.len() <= limit,
        data@.len() == 0 ==> out@.len() == 0,
        forall|bs: Seq<u8>|
            bs.len() > 0 && pattern@ == literal_pattern(bs) ==> at_occurrences(views(out@), bs, data@),
        forall|bs: Seq<u8>|
            bs.len() > 0 && pattern@ == literal_pattern(bs) && limit == 0 && bs.len() <= overlap_for(
                chunk_size,
            ) + 1 ==> forall|q: int| #[trigger] isolated(bs, data@, q) ==> has_offset(views(out@), q as u64),
        forall|bs: Seq<u8>|
            bs.len() > 0 && pattern@ == literal_pattern(bs) && limit == 0 && bs.len() <= overlap_for(
                chunk_size,
            ) + 1 && all_isolated(bs, data@) ==> reports_exactly(views(out@), bs, data@),
{
    let len = data.len();
    let chunks = plan_chunks(len as u64, chunk_size);
    let mut results: Vec<Vec<MatchRecord>> = Vec::new();
    let mut i: usize = 0;
    proof {
        if len == 0 {
            assert(line_count(0, chunk_size as nat) == 0) by (nonlinear_arith)
                requires
                    chunk_size >= 1,
            ;
        }
    }
    while i < chunks.len()
        invariant
            len == data@.len(),
            len + chunk_size <= u64::MAX,
            chunk_size >= 1,
            chunks@ == chunk_plan(len as u64, chunk_size),
            i <= chunks@.len(),
            results@.len() == i,
            list_views(results@) == Seq::new(
                i as nat,
                |x: int| chunk_result(pattern@, data@, chunk_size, width, x),
            ),
            forall|x: int, y: int|
                0 <= x < i && 0 <= y < list_views(results@)[x].len() ==> shows_data(
                    #[trigger] list_views(results@)[x][y],
                    data@,
                    width,
                ),
            forall|x: int, y: int|
                0 <= x < i && 0 <= y < list_views(results@)[x].len() ==> chunk_match_at(
                    pattern@,
                    data@,
                    chunk_size,
                    (#[trigger] list_views(results@)[x][y]).0,
                ),
            forall|bs: Seq<u8>|
                bs.len() > 0 && #[trigger] literal_pattern(bs) == pattern@ ==> lists_at_occurrences(
                    list_views(results@),
                    bs,
                    data@,
                ),
            forall|bs: Seq<u8>|
                bs.len() > 0 && #[trigger] literal_pattern(bs) == pattern@ && bs.len() <= overlap_for(
                    chunk_size,
                ) + 1 ==> lists_catch_before(list_views(results@), bs, data@, i * chunk_size),
        decreases chunks@.len() - i,
    {
        let c = chunks[i];
        proof {
            lemma_line_count(len as nat, chunk_size as nat, i as nat);
        }
        let start = c.start as usize;
        let searched = start + c.length + c.overlap;
        let end = if len - searched < width {
            len
        } else {
            searched + width
        };
        let piece = &data[start..end];
        let found = scan_chunk(piece, &c, pattern, width);
        let ghost region = data@.subrange(start as int, searched as int);
        assert(piece@.subrange(0, search_len(c, piece@.len() as int)) =~= region);
        let ghost before = list_views(results@);
        results.push(found);
        assert(list_views(results@) =~= before.push(views(found@)));
        assert forall|x: int, y: int|
            0 <= x < i + 1 && 0 <= y < list_views(results@)[x].len() implies shows_data(
            #[trigger] list_views(results@)[x][y],
            data@,
            width,
        ) by {
            if x == i {
                let v = views(found@)[y];
                let s = v.0 - start;
                assert(piece@.subrange(s, min_int(s + width, piece@.len() as int)) =~= data@.subrange(
                    v.0 as int,
                    min_int(v.0 + width, len as int),
                ));
            } else {
                assert(list_views(results@)[x] == before[x]);
            }
        }
        assert(list_views(results@) =~= Seq::new(
            (i + 1) as nat,
            |x: int| chunk_result(pattern@, data@, chunk_size, width, x),
        ));
        proof {
            let fv = views(found@);
            let spans = regex_spans(pattern@, region);
            assert(region == chunk_bytes(data@, chunk_size, i as int));
            assert(piece@ == chunk_read(data@, chunk_size, width, i as int));
            lemma_chunk_records_origin(piece@, c.start, c.length, width, spans);
            assert forall|x: int, y: int|
                0 <= x < i + 1 && 0 <= y < list_views(results@)[x].len() implies chunk_match_at(
                pattern@,
                data@,
                chunk_size,
                (#[trigger] list_views(results@)[x][y]).0,
            ) by {
                if x == i {
                    assert(list_views(results@)[x][y] == fv[y]);
                    let kk = choose|kk: int|
                        0 <= kk < spans.len() && (#[trigger] fv[y]).0 == (c.start + (
                        #[trigger] spans[kk]).0) as u64;
                    assert(regex_spans(pattern@, chunk_bytes(data@, chunk_size, i as int))[kk] == spans[kk]);
                    assert(c == chunk_at(data@.len() as u64, chunk_size, i as int));
                } else {
                    assert(list_views(results@)[x] == before[x]);
                }
            }
            lemma_parallel_step(
                pattern@,
                data@,
                c,
                chunk_size,
                i as int,
                region,
                piece@,
                width,
                before,
                views(found@),
            );
        }
        i = i + 1;
    }
    proof {
        lemma_line_count(len as nat, chunk_size as nat, i as nat);
        assert(list_views(results@) =~= chunk_results(pattern@, data@, chunk_size, width));
    }
    let out = merge_chunk_results(&results, limit);
    proof {
        let lists = list_views(results@);
        assert forall|j: int| 0 <= j < out@.len() implies chunk_match_at(
            pattern@,
            data@,
            chunk_size,
            (#[trigger] out@[j]).offset,
        ) by {
            assert(views(out@)[j].0 == out@[j].offset);
            assert(appears_in(lists, views(out@)[j]));
            let (x, y) = choose|x: int, y: int|
                0 <= x < lists.len() && 0 <= y < lists[x].len() && #[trigger] lists[x][y] == views(out@)[j];
            assert(chunk_match_at(pattern@, data@, chunk_size, lists[x][y].0));
        }
        lemma_parallel_result(pattern@, data@, chunk_size, i as int, limit, list_views(results@), views(out@));
    }
    proof {
        let lists = list_views(results@);
        assert forall|j: int| 0 <= j < out@.len() implies shows_data(#[trigger] views(out@)[j], data@, width) by {
            assert(appears_in(lists, views(out@)[j]));
            let (x, y) = choose|x: int, y: int|
                0 <= x < lists.len() && 0 <= y < lists[x].len() && #[trigger] lists[x][y] == views(out@)[j];
            assert(shows_data(lists[x][y], data@, width));
        }
        if len == 0 {
            if out@.len() > 0 {
                assert(shows_data(views(out@)[0], data@, width));
            }
        }
    }
    out
}


/// Every record in the lists starts at an occurrence of `d`.
pub open spec fn lists_at_occurrences(lists: Seq<Seq<RecordView>>, d: Seq<u8>, data: Seq<u8>) -> bool {
    forall|x: int, y: int|
        0 <= x < lists.len() && 0 <= y < lists[x].len() ==> occurs_at(d, data, (#[trigger] lists[x][y]).0 as int)
}

/// Some list holds a record with offset `q`.
pub open spec fn in_lists(lists: Seq<Seq<RecordView>>, q: u64) -> bool {
    exists|x: int, y: int| 0 <= x < lists.len() && 0 <= y < lists[x].len() && (#[trigger] lists[x][y]).0 == q
}

/// Every isolated occurrence of `d` before `end` is in the lists.
pub open spec fn lists_catch_before(lists: Seq<Seq<RecordView>>, d: Seq<u8>, data: Seq<u8>, end: int) -> bool {
    forall|q: int| #[trigger] isolated(d, data, q) && q < end ==> in_lists(lists, q as u64)
}

proof fn lemma_parallel_step(
    pattern: Seq<char>,
    data: Seq<u8>,
    c: Chunk,
    chunk_size: usize,
    i: int,
    region: Seq<u8>,
    piece: Seq<u8>,
    width: usize,
    before: Seq<Seq<RecordView>>,
    found: Seq<RecordView>,
)
    requires
        chunk_size >= 1,
        data.len() + chunk_size <= u64::MAX,
        0 <= i < line_count(data.len(), chunk_size as nat),
        i * chunk_size < data.len(),
        c == chunk_at(data.len() as u64, chunk_size, i),
        region == data.subrange(c.start as int, c.start + c.length + c.overlap),
        region.len() <= piece.len() <= usize::MAX,
        found == chunk_records(piece, c.start, c.length, width, regex_spans(pattern, region)),
        forall|bs: Seq<u8>|
            bs.len() > 0 && pattern == literal_pattern(bs) ==> regex_spans(pattern, region)
                == literal_spans(bs, region, 0),
        forall|bs: Seq<u8>|
            bs.len() > 0 && #[trigger] literal_pattern(bs) == pattern ==> lists_at_occurrences(before, bs, data),
        forall|bs: Seq<u8>|
            bs.len() > 0 && #[trigger] literal_pattern(bs) == pattern && bs.len() <= overlap_for(chunk_size)
                + 1 ==> lists_catch_before(before, bs, data, i * chunk_size),
    ensures
        forall|bs: Seq<u8>|
            bs.len() > 0 && #[trigger] literal_pattern(bs) == pattern ==> lists_at_occurrences(
                before.push(found),
                bs,
                data,
            ),
        forall|bs: Seq<u8>|
            bs.len() > 0 && #[trigger] literal_pattern(bs) == pattern && bs.len() <= overlap_for(chunk_size)
                + 1 ==> lists_catch_before(before.push(found), bs, data, (i + 1) * chunk_size),
{
    let lists = before.push(found);
    assert((i + 1) * chunk_size == i * chunk_size + chunk_size) by (nonlinear_arith);
    assert forall|bs: Seq<u8>| bs.len() > 0 && #[trigger] literal_pattern(bs) == pattern implies lists_at_occurrences(
        lists,
        bs,
        data,
    ) && (bs.len() <= overlap_for(chunk_size) + 1 ==> lists_catch_before(
        lists,
        bs,
        data,
        (i + 1) * chunk_size,
    )) by {
        lemma_chunk_catches(
            bs,
            data,
            c.start,
            c.length,
            c.overlap,
            chunk_size,
            overlap_for(chunk_size),
            region,
            piece,
            width,
            found,
        );
        assert forall|x: int, y: int|
            0 <= x < lists.len() && 0 <= y < lists[x].len() implies occurs_at(
            bs,
            data,
            (#[trigger] lists[x][y]).0 as int,
        ) by {
            if x < before.len() {
                assert(lists[x] == before[x]);
            }
        }
        if bs.len() <= overlap_for(chunk_size) + 1 {
            assert forall|q: int| #[trigger] isolated(bs, data, q) && q < (i + 1) * chunk_size implies in_lists(
                lists,
                q as u64,
            ) by {
                if q < i * chunk_size {
                    let (x, y) = choose|x: int, y: int|
                        0 <= x < before.len() && 0 <= y < before[x].len() && (#[trigger] before[x][y]).0
                            == q as u64;
                    assert(lists[x][y] == before[x][y]);
                } else {
                    assert(has_offset(found, q as u64));
                    let y = choose|y: int| 0 <= y < found.len() && #[trigger] found[y].0 == q as u64;
                    assert(lists[before.len() as int][y] == found[y]);
                }
            }
        }
    }
}

proof fn lemma_parallel_result(
    pattern: Seq<char>,
    data: Seq<u8>,
    chunk_size: usize,
    count: int,
    limit: usize,
    lists: Seq<Seq<RecordView>>,
    out: Seq<RecordView>,
)
    requires
        chunk_size >= 1,
        data.len() < u64::MAX,
        count == line_count(data.len(), chunk_size as nat),
        count * chunk_size >= data.len(),
        merged(lists, out, limit),
        forall|bs: Seq<u8>|
            bs.len() > 0 && #[trigger] literal_pattern(bs) == pattern ==> lists_at_occurrences(lists, bs, data),
        forall|bs: Seq<u8>|
            bs.len() > 0 && #[trigger] literal_pattern(bs) == pattern && bs.len() <= overlap_for(chunk_size)
                + 1 ==> lists_catch_before(lists, bs, data, count * chunk_size),
    ensures
        forall|bs: Seq<u8>|
            bs.len() > 0 && pattern == literal_pattern(bs) ==> at_occurrences(out, bs, data),
        forall|bs: Seq<u8>|
            bs.len() > 0 && pattern == literal_pattern(bs) && limit == 0 && bs.len() <= overlap_for(
                chunk_size,
            ) + 1 ==> forall|q: int| #[trigger] isolated(bs, data, q) ==> has_offset(out, q as u64),
        forall|bs: Seq<u8>|
            bs.len() > 0 && pattern == literal_pattern(bs) && limit == 0 && bs.len() <= overlap_for(
                chunk_size,
            ) + 1 && all_isolated(bs, data) ==> reports_exactly(out, bs, data),
{
    assert forall|bs: Seq<u8>| bs.len() > 0 && pattern == literal_pattern(bs) implies at_occurrences(
        out,
        bs,
        data,
    ) by {
        assert(lists_at_occurrences(lists, bs, data));
        assert forall|j: int| 0 <= j < out.len() implies occurs_at(bs, data, (#[trigger] out[j]).0 as int) by {
            assert(appears_in(lists, out[j]));
            let (x, y) = choose|x: int, y: int|
                0 <= x < lists.len() && 0 <= y < lists[x].len() && #[trigger] lists[x][y] == out[j];
        }
    }
    assert forall|bs: Seq<u8>|
        bs.len() > 0 && pattern == literal_pattern(bs) && limit == 0 && bs.len() <= overlap_for(chunk_size)
            + 1 implies (forall|q: int| #[trigger] isolated(bs, data, q) ==> has_offset(out, q as u64)) by {
        assert(lists_catch_before(lists, bs, data, count * chunk_size));
        assert forall|q: int| #[trigger] isolated(bs, data, q) implies has_offset(out, q as u64) by {
            assert(in_lists(lists, q as u64));
            let (x, y) = choose|x: int, y: int|
                0 <= x < lists.len() && 0 <= y < lists[x].len() && (#[trigger] lists[x][y]).0 == q as u64;
            assert(has_offset(out, (lists[x][y]).0));
        }
    }
    assert forall|bs: Seq<u8>|
        bs.len() > 0 && pattern == literal_pattern(bs) && limit == 0 && bs.len() <= overlap_for(chunk_size)
            + 1 && all_isolated(bs, data) implies reports_exactly(out, bs, data) by {
        lemma_reports_exactly(out, bs, data);
    }
}

} // verus!
