use vstd::prelude::*;

use crate::buffer_manager::BufferManager;
use crate::config::{buffer_size_for, Config};
use crate::error::{BingrepError, Result};
use crate::boundary::{
    all_isolated, at_occurrences, catches, isolated, lemma_reports_exactly, lemma_scan_spans_catches,
    lemma_span_occurs, reports_exactly,
};
use crate::regex_processor::{literal_pattern, literal_spans, regex_spans, spans_well_formed, CompiledPattern};

verus! {

/// One result of a scan: where it starts in the source, the bytes shown from
/// there, and the length of the match when there is one.
#[derive(Debug, Clone, PartialEq, Eq)]
pub struct MatchRecord {
    /// Absolute offset of the match (of the line, for a hex dump).
    pub offset: u64,
    /// The bytes shown, starting at `offset`.
    pub bytes: Vec<u8>,
    /// Length of the match; none for a hex-dump line.
    pub match_len: Option<usize>,
}

/// (offset, bytes, match length)
pub type RecordView = (u64, Seq<u8>, Option<usize>);

impl View for MatchRecord {
    type V = RecordView;

    open spec fn view(&self) -> RecordView {
        (self.offset, self.bytes@, self.match_len)
    }
}

/// The views of a list of records.
pub open spec fn views(recs: Seq<MatchRecord>) -> Seq<RecordView> {
    recs.map_values(|r: MatchRecord| r@)
}

/// Offsets strictly increase, and the first one is above `after`, if given.
pub open spec fn ordered_after(recs: Seq<RecordView>, after: Option<u64>) -> bool {
    &&& forall|j: int| 0 < j < recs.len() ==> recs[j - 1].0 < (#[trigger] recs[j]).0
    &&& (recs.len() > 0 && after is Some) ==> after->0 < recs[0].0
}

/// Some record of `s` has offset `o`.
pub open spec fn has_offset(s: Seq<RecordView>, o: u64) -> bool {
    exists|j: int| 0 <= j < s.len() && #[trigger] s[j].0 == o
}

/// The last offset of `recs`, or `before` when there is none.
pub open spec fn last_offset(recs: Seq<RecordView>, before: Option<u64>) -> Option<u64> {
    if recs.len() > 0 {
        Some(recs.last().0)
    } else {
        before
    }
}

pub open spec fn min_int(a: int, b: int) -> int {
    if a <= b {
        a
    } else {
        b
    }
}

/// The sequential windowed matcher, driven by its caller: the caller reads
/// the window that `next_read` asks for and hands it to `feed`, until the
/// scan is done. A window shorter than asked for marks the end of the data.
///
/// Matches are emitted left to right, never twice (an offset not above the
/// last emitted one is skipped). A match whose display region runs past a
/// full window makes the next window start at that match; after any other
/// full window the next one starts `padding` bytes before its end, so that a
/// pattern cut by the window edge is seen whole.
#[derive(Debug, Clone, Copy, PartialEq, Eq)]
pub struct SequentialScan {
    /// Bytes shown per match.
    pub width: usize,
    /// Matches to emit at most; 0 for no limit.
    pub limit: usize,
    /// Size of a full window.
    pub buffer_size: usize,
    /// Overlap between consecutive full windows.
    pub padding: usize,
    /// Absolute offset of the next window.
    pub cursor: u64,
    /// Offset of the last emitted match.
    pub last_emitted: Option<u64>,
    /// Matches emitted so far.
    pub emitted: u64,
    /// No more windows are wanted.
    pub done: bool,
}

/// The record for span `span` of a window that starts at `base`: the match
/// offset, up to `width` bytes from the match start, and the match length.
pub open spec fn record_at(window: Seq<u8>, base: u64, width: usize, span: (usize, usize)) -> RecordView {
    let s = span.0 as int;
    ((base + s) as u64, window.subrange(s, min_int(s + width, window.len() as int)), Some(
        (span.1 - span.0) as usize,
    ))
}

/// Going through the spans of a window that starts at `base`, from span `k`
/// on, with `out` emitted so far: the scan state and records after the window.
pub open spec fn scan_spans(
    sc: SequentialScan,
    base: u64,
    window: Seq<u8>,
    spans: Seq<(usize, usize)>,
    k: int,
    out: Seq<RecordView>,
) -> (SequentialScan, Seq<RecordView>)
    decreases spans.len() - k,
{
    if k < 0 || k >= spans.len() || sc.done {
        (sc, out)
    } else {
        let off = (base + spans[k].0) as u64;
        if sc.last_emitted is Some && off <= sc.last_emitted->0 {
            scan_spans(sc, base, window, spans, k + 1, out)
        } else if spans[k].0 + sc.width > window.len() && window.len() == sc.buffer_size {
            (SequentialScan { cursor: off, ..sc }, out)
        } else {
            let e = (sc.emitted + 1) as u64;
            let next = SequentialScan {
                last_emitted: Some(off),
                emitted: e,
                done: sc.limit > 0 && e >= sc.limit,
                ..sc
            };
            scan_spans(next, base, window, spans, k + 1, out.push(record_at(window, base, sc.width, spans[k])))
        }
    }
}

/// The scan state and the records emitted after `window`, read at
/// `sc.cursor`, is handed to a scan for `pattern`.
pub open spec fn after_window(sc: SequentialScan, pattern: Seq<char>, window: Seq<u8>) -> (
    SequentialScan,
    Seq<RecordView>,
) {
    if window.len() == 0 {
        (SequentialScan { done: true, ..sc }, Seq::empty())
    } else {
        let n = window.len();
        let next = if n == sc.buffer_size {
            sc.cursor + n - sc.padding
        } else {
            sc.cursor + n
        };
        scan_spans(
            SequentialScan { cursor: next as u64, ..sc },
            sc.cursor,
            window,
            regex_spans(pattern, window),
            0,
            Seq::empty(),
        )
    }
}

/// Each record of a window read at `base` lies in it, shows `width` bytes or
/// runs to the end of a short window, and its offset is above `after`.
pub open spec fn records_from_window(
    recs: Seq<RecordView>,
    base: u64,
    window: Seq<u8>,
    width: usize,
    buffer_size: usize,
) -> bool {
    forall|j: int|
        0 <= j < recs.len() ==> {
            let s = (#[trigger] recs[j]).0 - base;
            &&& base <= recs[j].0
            &&& s <= window.len()
            &&& (s + width <= window.len() || window.len() < buffer_size)
            &&& recs[j].1 == window.subrange(s, min_int(s + width, window.len() as int))
            &&& recs[j].2 is Some
        }
}

impl SequentialScan {
    /// The scan's parameters are usable and its counters agree.
    pub open spec fn wf(&self) -> bool {
        &&& 1 <= self.width <= self.buffer_size
        &&& self.padding < self.buffer_size
        &&& self.last_emitted is None ==> self.emitted == 0
        &&& self.last_emitted is Some ==> self.emitted <= self.last_emitted->0 + 1
        &&& self.limit > 0 ==> self.emitted <= self.limit
        &&& (self.limit > 0 && self.emitted >= self.limit) ==> self.done
    }

    /// A scan from the start of the source.
    pub fn new(width: usize, limit: usize, buffer_size: usize, padding: usize) -> (r: Self)
        requires
            1 <= width <= buffer_size,
            padding < buffer_size,
        ensures
            r.wf(),
            r == (SequentialScan {
                width,
                limit,
                buffer_size,
                padding,
                cursor: 0,
                last_emitted: None,
                emitted: 0,
                done: false,
            }),
    {
        SequentialScan {
            width,
            limit,
            buffer_size,
            padding,
            cursor: 0,
            last_emitted: None,
            emitted: 0,
            done: false,
        }
    }

    /// Where the next window is read and how long it is; none once done.
    pub fn next_read(&self) -> (r: Option<(u64, usize)>)
        ensures
            self.done ==> r is None,
            !self.done ==> r == Some((self.cursor, self.buffer_size)),
    {
        if self.done {
            None
        } else {
            Some((self.cursor, self.buffer_size))
        }
    }

    /// Scans `window`, the bytes read at `cursor` (fewer than `buffer_size`
    /// only at the end of the data), and returns the records it emits. An
    /// empty window ends the scan.
    pub fn feed(&mut self, pattern: &CompiledPattern, window: &[u8]) -> (recs: Vec<MatchRecord>)
        requires
            old(self).wf(),
            !old(self).done,
            window@.len() <= old(self).buffer_size,
            old(self).cursor + window@.len() < u64::MAX,
        ensures
            (*final(self), views(recs@)) == after_window(*old(self), pattern@, window@),
            final(self).wf(),
            final(self).width == old(self).width && final(self).limit == old(self).limit,
            final(self).buffer_size == old(self).buffer_size,
            final(self).padding == old(self).padding,
            window@.len() == 0 ==> final(self).done && recs@.len() == 0,
            window@.len() > 0 ==> old(self).cursor < final(self).cursor <= old(self).cursor
                + window@.len(),
            window@.len() > 0 && old(self).limit == 0 ==> !final(self).done,
            forall|j: int|
                0 <= j < recs@.len() ==> exists|kk: int|
                    0 <= kk < regex_spans(pattern@, window@).len() && (#[trigger] views(recs@)[j]).0
                        == old(self).cursor + (#[trigger] regex_spans(pattern@, window@)[kk]).0,
            window@.len() > 0 ==> forall|bs: Seq<u8>|
                bs.len() > 0 && pattern@ == literal_pattern(bs) ==> regex_spans(pattern@, window@)
                    == literal_spans(bs, window@, 0),
            ordered_after(views(recs@), old(self).last_emitted),
            final(self).last_emitted == last_offset(views(recs@), old(self).last_emitted),
            final(self).emitted == old(self).emitted + recs@.len(),
            records_from_window(
                views(recs@),
                old(self).cursor,
                window@,
                old(self).width,
                old(self).buffer_size,
            ),
    {
        let ghost start = *self;
        let n = window.len();
        let mut recs: Vec<MatchRecord> = Vec::new();
        if n == 0 {
            self.done = true;
            assert(views(recs@) =~= Seq::<RecordView>::empty());
            return recs;
        }
        let spans = pattern.find_all(window);
        let base = self.cursor;
        self.cursor = if n == self.buffer_size {
            base + n as u64 - self.padding as u64
        } else {
            base + n as u64
        };
        let mut k: usize = 0;
        let mut stopped = false;
        assert(views(recs@) =~= Seq::<RecordView>::empty());
        while k < spans.len() && !self.done && !stopped
            invariant
                start.wf(),
                !start.done,
                base == start.cursor,
                n == window@.len(),
                0 < n <= start.buffer_size,
                base + n < u64::MAX,
                k <= spans@.len(),
                spans@ == regex_spans(pattern@, window@),
                spans_well_formed(spans@, n as int),
                self.wf(),
                self.width == start.width && self.limit == start.limit,
                self.buffer_size == start.buffer_size && self.padding == start.padding,
                base < self.cursor <= base + n,
                self.emitted == start.emitted + recs@.len(),
                start.limit == 0 ==> !self.done,
                forall|j: int|
                    0 <= j < recs@.len() ==> exists|kk: int|
                        0 <= kk < spans@.len() && (#[trigger] views(recs@)[j]).0 == base + (
                        #[trigger] spans@[kk]).0,
                self.last_emitted == last_offset(views(recs@), start.last_emitted),
                ordered_after(views(recs@), start.last_emitted),
                records_from_window(views(recs@), base, window@, start.width, start.buffer_size),
                after_window(start, pattern@, window@) == if stopped {
                    (*self, views(recs@))
                } else {
                    scan_spans(*self, base, window@, spans@, k as int, views(recs@))
                },
            decreases spans@.len() - k,
        {
            let (s, e) = spans[k];
            let off = base + s as u64;
            let dup = match self.last_emitted {
                Some(l) => off <= l,
                None => false,
            };
            if dup {
                k = k + 1;
            } else if self.width > n - s && n == self.buffer_size {
                self.cursor = off;
                stopped = true;
                k = spans.len();
            } else {
                let end = if self.width <= n - s {
                    s + self.width
                } else {
                    n
                };
                let bytes = vstd::slice::slice_to_vec(&window[s..end]);
                let ghost before = views(recs@);
                let rec = MatchRecord { offset: off, bytes, match_len: Some(e - s) };
                recs.push(rec);
                assert(views(recs@) =~= before.push(record_at(window@, base, start.width, (s, e))));
                assert(views(recs@)[before.len() as int].0 == base + spans@[k as int].0);
                self.last_emitted = Some(off);
                self.emitted = self.emitted + 1;
                if self.limit > 0 && self.emitted >= self.limit as u64 {
                    self.done = true;
                }
                k = k + 1;
            }
        }
        recs
    }
}


/// Every record shows the source from its offset on: `width` bytes, or up to
/// the end of the data.
pub open spec fn shows_source(recs: Seq<RecordView>, data: Seq<u8>, width: usize) -> bool {
    forall|j: int|
        0 <= j < recs.len() ==> (#[trigger] recs[j]).0 <= data.len() && recs[j].1 == data.subrange(
            recs[j].0 as int,
            min_int(recs[j].0 + width, data.len() as int),
        )
}

/// The window of `buffer_size` bytes (fewer at the end) read at `p`.
pub open spec fn window_at(data: Seq<u8>, p: int, buffer_size: usize) -> Seq<u8> {
    data.subrange(p, min_int(p + buffer_size, data.len() as int))
}

/// The records that the scan emits from state `sc` over `data`, window after
/// window, for at most `steps` windows.
pub open spec fn scan_run(sc: SequentialScan, pattern: Seq<char>, data: Seq<u8>, steps: nat) -> Seq<
    RecordView,
>
    decreases steps,
{
    if steps == 0 || sc.done {
        Seq::empty()
    } else {
        let (next, recs) = after_window(sc, pattern, window_at(data, sc.cursor as int, sc.buffer_size));
        recs + scan_run(next, pattern, data, (steps - 1) as nat)
    }
}

/// A scan with these parameters, before its first window.
pub open spec fn initial_scan(width: usize, limit: usize, buffer_size: usize, padding: usize) -> SequentialScan {
    SequentialScan {
        width,
        limit,
        buffer_size,
        padding,
        cursor: 0,
        last_emitted: None,
        emitted: 0,
        done: false,
    }
}

/// `off` is where the engine found a match of `pattern` in some window that
/// the scan read.
pub open spec fn engine_match_at(pattern: Seq<char>, data: Seq<u8>, buffer_size: usize, off: u64) -> bool {
    exists|p: int, kk: int|
        0 <= p <= data.len() && 0 <= kk < regex_spans(pattern, window_at(data, p, buffer_size)).len()
            && p + (#[trigger] regex_spans(pattern, window_at(data, p, buffer_size))[kk]).0 == off
}

proof fn lemma_window_shows_source(
    recs: Seq<RecordView>,
    base: u64,
    window: Seq<u8>,
    data: Seq<u8>,
    width: usize,
    buffer_size: usize,
)
    requires
        base + buffer_size <= data.len() ==> window == data.subrange(
            base as int,
            base + buffer_size,
        ),
        base + buffer_size > data.len() ==> window == data.subrange(base as int, data.len() as int),
        base <= data.len(),
        records_from_window(recs, base, window, width, buffer_size),
    ensures
        shows_source(recs, data, width),
{
    assert forall|j: int| 0 <= j < recs.len() implies (#[trigger] recs[j]).0 <= data.len()
        && recs[j].1 == data.subrange(
        recs[j].0 as int,
        min_int(recs[j].0 + width, data.len() as int),
    ) by {
        let s = recs[j].0 - base;
        let n = window.len() as int;
        let hi = min_int(s + width, n);
        assert(window.subrange(s, hi) =~= data.subrange(base + s, base + hi));
    }
}

proof fn lemma_ordered_append(a: Seq<RecordView>, b: Seq<RecordView>)
    requires
        ordered_after(a, None),
        ordered_after(b, last_offset(a, None)),
    ensures
        ordered_after(a + b, None),
        last_offset(a + b, None) == last_offset(b, last_offset(a, None)),
{
    let c = a + b;
    assert forall|j: int| 0 < j < c.len() implies c[j - 1].0 < (#[trigger] c[j]).0 by {
        if j < a.len() {
        } else if j == a.len() {
        } else {
            assert(c[j - 1] == b[j - 1 - a.len()]);
        }
    }
}

/// Scans `data` with the sequential windowed matcher, reading windows of
/// `buffer_size` bytes from it as from a file. The records come in strictly
/// increasing offset order (no match twice), each shows the data from its
/// offset (`width` bytes, or up to the end), there are at most `limit` of
/// them when `limit` is positive, and none for empty data.
pub fn scan_sequential(
    data: &[u8],
    pattern: &CompiledPattern,
    width: usize,
    limit: usize,
    buffer_size: usize,
    padding: usize,
) -> (out: Vec<MatchRecord>)
    requires
        1 <= width <= buffer_size,
        padding < buffer_size,
        data@.len() < u64::MAX,
    ensures
        views(out@) == scan_run(
            initial_scan(width, limit, buffer_size, padding),
            pattern@,
            data@,
            (data@.len() + 1) as nat,
        ),
        ordered_after(views(out@), None),
        shows_source(views(out@), data@, width),
        forall|j: int|
            0 <= j < out@.len() ==> engine_match_at(pattern@, data@, buffer_size, (#[trigger] out@[j]).offset),
        limit > 0 ==> out@.len() <= limit,
        data@.len() == 0 ==> out@.len() == 0,
        forall|bs: Seq<u8>|
            bs.len() > 0 && pattern@ == literal_pattern(bs) && limit == 0 && bs.len() <= padding + 1
                ==> forall|q: int| #[trigger] isolated(bs, data@, q) ==> has_offset(views(out@), q as u64),
        forall|bs: Seq<u8>|
            bs.len() > 0 && pattern@ == literal_pattern(bs) ==> at_occurrences(views(out@), bs, data@),
        forall|bs: Seq<u8>|
            bs.len() > 0 && pattern@ == literal_pattern(bs) && limit == 0 && bs.len() <= padding + 1
                && all_isolated(bs, data@) ==> reports_exactly(views(out@), bs, data@),
{
    let len = data.len();
    let mut scan = SequentialScan::new(width, limit, buffer_size, padding);
    let mut out: Vec<MatchRecord> = Vec::new();
    let ghost whole = scan_run(scan, pattern@, data@, (len + 1) as nat);
    let ghost mut fuel: nat = (len + 1) as nat;
    assert(views(out@) =~= Seq::<RecordView>::empty());
    assert(views(out@) + scan_run(scan, pattern@, data@, fuel) =~= whole);
    while !scan.done
        invariant
            whole == scan_run(
                initial_scan(width, limit, buffer_size, padding),
                pattern@,
                data@,
                (len + 1) as nat,
            ),
            views(out@) + scan_run(scan, pattern@, data@, fuel) == whole,
            fuel >= len - scan.cursor + if scan.done {
                0int
            } else {
                1int
            },
            scan.wf(),
            scan.width == width && scan.limit == limit,
            scan.buffer_size == buffer_size && scan.padding == padding,
            scan.cursor <= len,
            len == data@.len(),
            len < u64::MAX,
            scan.emitted == out@.len(),
            scan.last_emitted == last_offset(views(out@), None),
            ordered_after(views(out@), None),
            shows_source(views(out@), data@, width),
            forall|j: int|
                0 <= j < out@.len() ==> engine_match_at(pattern@, data@, buffer_size, (#[trigger] out@[j]).offset),
            len == 0 ==> out@.len() == 0,
            limit == 0 && scan.done ==> scan.cursor >= len,
            forall|bs: Seq<u8>|
                bs.len() > 0 && #[trigger] literal_pattern(bs) == pattern@ && limit == 0 && bs.len()
                    <= padding + 1 ==> catches(bs, data@, views(out@), scan.cursor, scan.last_emitted),
            forall|bs: Seq<u8>|
                bs.len() > 0 && #[trigger] literal_pattern(bs) == pattern@ ==> at_occurrences(
                    views(out@),
                    bs,
                    data@,
                ),
        decreases len - scan.cursor + if scan.done {
            0int
        } else {
            1int
        },
    {
        let pos = scan.cursor as usize;
        let end = if len - pos < buffer_size {
            len
        } else {
            pos + buffer_size
        };
        let window = &data[pos..end];
        let ghost before = views(out@);
        let ghost old_scan = scan;
        let ghost old_fuel = fuel;
        let mut recs = scan.feed(pattern, window);
        proof {
            assert(window@ == window_at(data@, pos as int, buffer_size));
            assert(scan_run(old_scan, pattern@, data@, old_fuel) == views(recs@) + scan_run(
                scan,
                pattern@,
                data@,
                (old_fuel - 1) as nat,
            ));
            fuel = (old_fuel - 1) as nat;
            assert(before + views(recs@) + scan_run(scan, pattern@, data@, fuel) =~= before + (
            views(recs@) + scan_run(scan, pattern@, data@, fuel)));
        }
        proof {
            lemma_window_shows_source(views(recs@), pos as u64, window@, data@, width, buffer_size);
            lemma_ordered_append(before, views(recs@));
            lemma_literal_window_step(
                pattern@,
                data@,
                pos as int,
                window@,
                old_scan,
                scan,
                before,
                views(recs@),
            );
        }
        let ghost added = views(recs@);
        let ghost old_out = out@;
        let ghost new_recs = recs@;
        proof {
            assert(window@ == window_at(data@, pos as int, buffer_size));
            assert forall|j: int| 0 <= j < new_recs.len() implies engine_match_at(
                pattern@,
                data@,
                buffer_size,
                (#[trigger] new_recs[j]).offset,
            ) by {
                assert(views(new_recs)[j].0 == new_recs[j].offset);
                let kk = choose|kk: int|
                    0 <= kk < regex_spans(pattern@, window@).len() && (#[trigger] views(new_recs)[j]).0
                        == old_scan.cursor + (#[trigger] regex_spans(pattern@, window@)[kk]).0;
                assert(regex_spans(pattern@, window_at(data@, pos as int, buffer_size))[kk].0 + pos
                    == new_recs[j].offset);
            }
        }
        out.append(&mut recs);
        assert(views(out@) =~= before + added);
        assert forall|j: int| 0 <= j < out@.len() implies engine_match_at(
            pattern@,
            data@,
            buffer_size,
            (#[trigger] out@[j]).offset,
        ) by {
            if j < old_out.len() {
                assert(out@[j] == old_out[j]);
            } else {
                assert(out@[j] == new_recs[j - old_out.len()]);
            }
        }
    }
    proof {
        assert(views(out@) + Seq::<RecordView>::empty() =~= views(out@));
        assert forall|bs: Seq<u8>|
            bs.len() > 0 && pattern@ == literal_pattern(bs) && limit == 0 && bs.len() <= padding + 1
                && all_isolated(bs, data@) implies reports_exactly(views(out@), bs, data@) by {
            lemma_reports_exactly(views(out@), bs, data@);
        }
    }
    out
}

/// One window of the scan keeps, for a literal pattern, the emitted records
/// at occurrences and every isolated occurrence it passed among them.
proof fn lemma_literal_window_step(
    pattern: Seq<char>,
    data: Seq<u8>,
    pos: int,
    window: Seq<u8>,
    old_scan: SequentialScan,
    scan: SequentialScan,
    before: Seq<RecordView>,
    recs: Seq<RecordView>,
)
    requires
        old_scan.wf(),
        !old_scan.done,
        old_scan.cursor == pos,
        0 <= pos <= data.len(),
        data.len() < u64::MAX,
        window.len() <= old_scan.buffer_size,
        pos + window.len() <= data.len(),
        window == data.subrange(pos, pos + window.len()),
        window.len() < old_scan.buffer_size ==> pos + window.len() == data.len(),
        (scan, recs) == after_window(old_scan, pattern, window),
        window.len() == 0 ==> scan.done && recs.len() == 0,
        window.len() > 0 ==> forall|bs: Seq<u8>|
            bs.len() > 0 && pattern == literal_pattern(bs) ==> regex_spans(pattern, window)
                == literal_spans(bs, window, 0),
        forall|j: int|
            0 <= j < recs.len() ==> exists|kk: int|
                0 <= kk < regex_spans(pattern, window).len() && (#[trigger] recs[j]).0 == old_scan.cursor
                    + (#[trigger] regex_spans(pattern, window)[kk]).0,
        forall|bs: Seq<u8>|
            bs.len() > 0 && #[trigger] literal_pattern(bs) == pattern && old_scan.limit == 0
                && bs.len() <= old_scan.padding + 1 ==> catches(
                bs,
                data,
                before,
                old_scan.cursor,
                old_scan.last_emitted,
            ),
        forall|bs: Seq<u8>|
            bs.len() > 0 && #[trigger] literal_pattern(bs) == pattern ==> at_occurrences(before, bs, data),
    ensures
        forall|bs: Seq<u8>|
            bs.len() > 0 && #[trigger] literal_pattern(bs) == pattern && old_scan.limit == 0
                && bs.len() <= old_scan.padding + 1 ==> catches(
                bs,
                data,
                before + recs,
                scan.cursor,
                scan.last_emitted,
            ),
        forall|bs: Seq<u8>|
            bs.len() > 0 && #[trigger] literal_pattern(bs) == pattern ==> at_occurrences(
                before + recs,
                bs,
                data,
            ),
{
    assert forall|bs: Seq<u8>|
        bs.len() > 0 && #[trigger] literal_pattern(bs) == pattern && old_scan.limit == 0 && bs.len()
            <= old_scan.padding + 1 implies catches(bs, data, before + recs, scan.cursor, scan.last_emitted) by {
        if window.len() == 0 {
            assert(before + recs =~= before);
        } else {
            let n = window.len() as int;
            let next = if n == old_scan.buffer_size {
                pos + n - old_scan.padding
            } else {
                pos + n
            };
            let sc0 = SequentialScan { cursor: next as u64, ..old_scan };
            assert(before + Seq::<RecordView>::empty() =~= before);
            lemma_scan_spans_catches(
                sc0,
                pos as u64,
                window,
                0,
                before,
                Seq::empty(),
                old_scan.last_emitted,
                bs,
                data,
            );
        }
    }
    assert forall|bs: Seq<u8>|
        bs.len() > 0 && #[trigger] literal_pattern(bs) == pattern implies at_occurrences(
        before + recs,
        bs,
        data,
    ) by {
        let all = before + recs;
        assert forall|j: int| 0 <= j < all.len() implies crate::boundary::occurs_at(
            bs,
            data,
            (#[trigger] all[j]).0 as int,
        ) by {
            if j >= before.len() {
                let jj = j - before.len();
                assert(all[j] == recs[jj]);
                let kk = choose|kk: int|
                    0 <= kk < regex_spans(pattern, window).len() && (#[trigger] recs[jj]).0
                        == old_scan.cursor + (#[trigger] regex_spans(pattern, window)[kk]).0;
                lemma_span_occurs(bs, data, pos, window, kk);
            } else {
                assert(all[j] == before[j]);
            }
        }
    }
}

/// The `j`-th hex-dump line of `data`, read from absolute offset `base`.
pub open spec fn dump_line(data: Seq<u8>, base: u64, width: usize, j: int) -> RecordView {
    (
        (base + j * width) as u64,
        data.subrange(j * width, min_int((j + 1) * width, data.len() as int)),
        None,
    )
}

/// The number of `width`-byte lines that cover `len` bytes: `ceil(len / width)`.
pub open spec fn line_count(len: nat, width: nat) -> nat {
    if width == 0 {
        0
    } else {
        ((len + width - 1) / width as int) as nat
    }
}

/// The hex-dump lines of `data` read at `base`: consecutive `width`-byte
/// pieces, the last one possibly shorter, at most `limit` of them when
/// `limit` is positive.
pub open spec fn dump_lines(data: Seq<u8>, base: u64, width: usize, limit: usize) -> Seq<RecordView> {
    let total = line_count(data.len(), width as nat);
    let k = if limit > 0 && limit < total {
        limit as nat
    } else {
        total
    };
    Seq::new(k, |j: int| dump_line(data, base, width, j))
}

/// Line `k` starts inside the data exactly when `k` is below the line count.
pub proof fn lemma_line_count(len: nat, width: nat, k: nat)
    requires
        width >= 1,
    ensures
        (k < line_count(len, width)) == (k * width < len),
{
    let t = line_count(len, width);
    assert(t == (len + width - 1) / width as int);
    if k < t {
        assert((k + 1) * width <= t * width) by (nonlinear_arith)
            requires
                k + 1 <= t,
                width >= 1,
        ;
        assert(t * width <= len + width - 1) by (nonlinear_arith)
            requires
                t == (len + width - 1) / width as int,
                width >= 1,
        ;
        assert(k * width < len) by (nonlinear_arith)
            requires
                (k + 1) * width <= t * width,
                t * width <= len + width - 1,
        ;
    } else {
        assert(len + width - 1 < (t + 1) * width) by (nonlinear_arith)
            requires
                t == (len + width - 1) / width as int,
                width >= 1,
        ;
        assert(t * width <= k * width) by (nonlinear_arith)
            requires
                t <= k,
                width >= 1,
        ;
        assert(k * width >= len) by (nonlinear_arith)
            requires
                len + width - 1 < (t + 1) * width,
                t * width <= k * width,
        ;
    }
}

/// Splits `window`, read at absolute offset `base`, into hex-dump lines of
/// `width` bytes (the last one possibly shorter), at most `limit` of them
/// when `limit` is positive.
pub fn hex_dump_window(window: &[u8], base: u64, width: usize, limit: usize) -> (out: Vec<MatchRecord>)
    requires
        width >= 1,
        base + window@.len() <= u64::MAX,
    ensures
        views(out@) == dump_lines(window@, base, width, limit),
{
    let len = window.len();
    let mut out: Vec<MatchRecord> = Vec::new();
    let mut pos: usize = 0;
    let mut count: usize = 0;
    let ghost total = line_count(len as nat, width as nat);
    proof {
        lemma_line_count(len as nat, width as nat, 0);
    }
    while pos < len && (limit == 0 || count < limit)
        invariant
            len == window@.len(),
            width >= 1,
            base + len <= u64::MAX,
            total == line_count(len as nat, width as nat),
            count <= total,
            limit > 0 ==> count <= limit,
            pos < len ==> pos == count * width,
            pos <= len,
            pos == len ==> count == total,
            views(out@) == Seq::new(count as nat, |j: int| dump_line(window@, base, width, j)),
        decreases len - pos,
    {
        proof {
            lemma_line_count(len as nat, width as nat, count as nat);
            lemma_line_count(len as nat, width as nat, (count + 1) as nat);
        }
        let end = if width <= len - pos {
            pos + width
        } else {
            len
        };
        assert((count + 1) * width == count * width + width) by (nonlinear_arith);
        assert(count <= count * width) by (nonlinear_arith)
            requires
                width >= 1,
        ;
        let bytes = vstd::slice::slice_to_vec(&window[pos..end]);
        let ghost before = views(out@);
        let rec = MatchRecord { offset: base + pos as u64, bytes, match_len: None };
        assert(rec@ == dump_line(window@, base, width, count as int));
        out.push(rec);
        assert(views(out@) =~= before.push(rec@));
        assert(views(out@) =~= Seq::new(
            (count + 1) as nat,
            |j: int| dump_line(window@, base, width, j),
        ));
        pos = end;
        count = count + 1;
    }
    assert(views(out@) =~= dump_lines(window@, base, width, limit));
    out
}

/// The hex dump of `data` from its start: `width`-byte lines, at most
/// `limit` of them when `limit` is positive.
pub fn hex_dump_sequential(data: &[u8], width: usize, limit: usize) -> (out: Vec<MatchRecord>)
    requires
        width >= 1,
        data@.len() <= u64::MAX,
    ensures
        views(out@) == dump_lines(data@, 0, width, limit),
{
    hex_dump_window(data, 0, width, limit)
}

/// The bytes of all records, one after another.
pub open spec fn joined_bytes(recs: Seq<RecordView>) -> Seq<u8>
    decreases recs.len(),
{
    if recs.len() == 0 {
        Seq::empty()
    } else {
        joined_bytes(recs.drop_last()) + recs.last().1
    }
}

/// An unlimited hex dump with width `width` of `len` bytes has
/// `ceil(len / width)` lines, and their bytes joined in order give back the
/// data exactly.
pub proof fn hex_dump_round_trip(data: Seq<u8>, width: usize)
    requires
        width >= 1,
    ensures
        dump_lines(data, 0, width, 0).len() == line_count(data.len(), width as nat),
        joined_bytes(dump_lines(data, 0, width, 0)) == data,
{
    let lines = dump_lines(data, 0, width, 0);
    let total = line_count(data.len(), width as nat);
    lemma_dump_prefix(data, width, total);
    lemma_line_count(data.len(), width as nat, total);
    assert(lines.take(total as int) =~= lines);
    assert(data.subrange(0, data.len() as int) =~= data);
}

/// The first `k` lines of an unlimited dump join to the first `k * width`
/// bytes of the data (all of it, once they run past the end).
proof fn lemma_dump_prefix(data: Seq<u8>, width: usize, k: nat)
    requires
        width >= 1,
        k <= line_count(data.len(), width as nat),
    ensures
        joined_bytes(dump_lines(data, 0, width, 0).take(k as int)) == data.subrange(
            0,
            min_int(k * width, data.len() as int),
        ),
    decreases k,
{
    let lines = dump_lines(data, 0, width, 0);
    if k == 0 {
        assert(lines.take(0) =~= Seq::<RecordView>::empty());
        assert(data.subrange(0, 0) =~= Seq::<u8>::empty());
    } else {
        let j = (k - 1) as nat;
        lemma_dump_prefix(data, width, j);
        lemma_line_count(data.len(), width as nat, j);
        assert(k * width == j * width + width) by (nonlinear_arith)
            requires
                k == j + 1,
        ;
        assert(lines.take(k as int).drop_last() =~= lines.take(j as int));
        let hi = min_int(k * width, data.len() as int);
        assert(lines.len() == line_count(data.len(), width as nat));
        assert(lines.take(k as int).last() == dump_line(data, 0, width, j as int));
        assert(joined_bytes(lines.take(k as int)) == joined_bytes(lines.take(j as int)) + lines.take(
            k as int,
        ).last().1);
        assert(data.subrange(0, j * width) + data.subrange(j * width, hi) =~= data.subrange(0, hi));
    }
}

/// Reads files for the search: a configuration and the reusable windows.
pub struct FileProcessor {
    config: Config,
    buffer_manager: BufferManager,
}

/// `out` is what a sequential scan of `data` gives with the window size and
/// padding that `c` sets for `width`: the full run of the scan, ordered,
/// showing the data, within the limit; for a byte literal no longer than the
/// padding plus one and no limit, every occurrence that no other overlaps,
/// and only occurrences.
pub open spec fn scanned_as_configured(
    c: Config,
    out: Seq<RecordView>,
    pattern: Seq<char>,
    data: Seq<u8>,
    width: usize,
    limit: usize,
) -> bool {
    let bs = buffer_size_for(c, width);
    let pad = padding_for(c, bs);
    &&& out == scan_run(initial_scan(width, limit, bs, pad), pattern, data, (data.len() + 1) as nat)
    &&& ordered_after(out, None)
    &&& shows_source(out, data, width)
    &&& (limit > 0 ==> out.len() <= limit)
    &&& (data.len() == 0 ==> out.len() == 0)
    &&& forall|bs: Seq<u8>|
        bs.len() > 0 && pattern == literal_pattern(bs) ==> at_occurrences(out, bs, data)
    &&& forall|bs: Seq<u8>|
        bs.len() > 0 && pattern == literal_pattern(bs) && limit == 0 && bs.len() <= pad + 1
            ==> forall|q: int| #[trigger] isolated(bs, data, q) ==> has_offset(out, q as u64)
    &&& forall|bs: Seq<u8>|
        bs.len() > 0 && pattern == literal_pattern(bs) && limit == 0 && bs.len() <= pad + 1
            && all_isolated(bs, data) ==> reports_exactly(out, bs, data)
}

/// The overlap used between full windows of `buffer_size` bytes: the
/// configured padding, or half a window when the padding would not leave a
/// window any progress.
pub open spec fn padding_for(c: Config, buffer_size: usize) -> usize {
    if c.buffer_padding < buffer_size {
        c.buffer_padding
    } else {
        buffer_size / 2
    }
}

impl FileProcessor {
    /// A processor with windows sized by `config`: the primary window is
    /// `buffer_size` bytes, the overflow window `max_line_width` bytes and
    /// at least 1024.
    pub fn new(config: Config) -> (r: Self)
        ensures
            r.config() == config,
            r.buffer_manager()@.0.len() == config.buffer_size,
            r.buffer_manager()@.1.len() == if config.max_line_width > 1024 {
                config.max_line_width
            } else {
                1024
            },
    {
        let buffer_size = config.buffer_size;
        let max_extra_size = if config.max_line_width > 1024 {
            config.max_line_width
        } else {
            1024
        };
        let buffer_manager = BufferManager::new(buffer_size, max_extra_size);
        FileProcessor { config, buffer_manager }
    }

    pub closed spec fn config(&self) -> Config {
        self.config
    }

    pub closed spec fn buffer_manager(&self) -> BufferManager {
        self.buffer_manager
    }

    /// The configuration.
    pub fn get_config(&self) -> (r: &Config)
        ensures
            *r == self.config(),
    {
        &self.config
    }

    /// The windows.
    pub fn get_buffer_manager(&mut self) -> (r: &mut BufferManager)
        ensures
            *r == old(self).buffer_manager(),
            final(self).config() == old(self).config(),
            final(self).buffer_manager() == *final(r),
    {
        &mut self.buffer_manager
    }

    /// A sequential scan for display width `width` and result limit `limit`,
    /// with the window size that the configuration gives for `width`. A width
    /// of 0 or wider than that window is `InvalidWidth`.
    pub fn start_scan(&self, width: usize, limit: usize) -> (r: Result<SequentialScan>)
        ensures
            ({
                let bs = buffer_size_for(self.config(), width);
                if 1 <= width <= bs {
                    r == Ok::<SequentialScan, BingrepError>(
                        SequentialScan {
                            width,
                            limit,
                            buffer_size: bs,
                            padding: padding_for(self.config(), bs),
                            cursor: 0,
                            last_emitted: None,
                            emitted: 0,
                            done: false,
                        },
                    ) && r->Ok_0.wf()
                } else {
                    r == Err::<SequentialScan, BingrepError>(BingrepError::InvalidWidth(width))
                }
            }),
    {
        let bs = self.config.get_buffer_size(width);
        if width == 0 || width > bs {
            return Err(BingrepError::InvalidWidth(width));
        }
        let padding = if self.config.buffer_padding < bs {
            self.config.buffer_padding
        } else {
            bs / 2
        };
        Ok(SequentialScan::new(width, limit, bs, padding))
    }

    /// Scans in-memory `data` as `start_scan` sets up a scan of a file.
    pub fn scan_bytes(&self, data: &[u8], pattern: &CompiledPattern, width: usize, limit: usize) -> (r:
        Result<Vec<MatchRecord>>)
        requires
            data@.len() < u64::MAX,
        ensures
            !(1 <= width <= buffer_size_for(self.config(), width)) ==> r == Err::<
                Vec<MatchRecord>,
                BingrepError,
            >(BingrepError::InvalidWidth(width)),
            1 <= width <= buffer_size_for(self.config(), width) ==> (r matches Ok(out)
                && scanned_as_configured(self.config(), views(out@), pattern@, data@, width, limit)),
    {
        match self.start_scan(width, limit) {
            Ok(sc) => {
                let out = scan_sequential(data, pattern, width, limit, sc.buffer_size, sc.padding);
                assert(scanned_as_configured(self.config(), views(out@), pattern@, data@, width, limit));
                Ok(out)
            },
            Err(e) => Err(e),
        }
    }
}


/// How many bytes from the start the first `limit` lines of a hex dump with
/// width `width` cover, in data of `len` bytes: all of it when `limit` is 0
/// or the lines reach the end.
pub fn dump_extent(len: u64, width: usize, limit: usize) -> (r: u64)
    requires
        width >= 1,
    ensures
        r == if limit > 0 && limit * width < len {
            (limit * width) as u64
        } else {
            len
        },
{
    if limit == 0 {
        return len;
    }
    assert((limit as int) * (width as int) <= 0xffff_ffff_ffff_ffffu128 * 0xffff_ffff_ffff_ffffu128)
        by (nonlinear_arith)
        requires
            0 <= limit <= 0xffff_ffff_ffff_ffffu128,
            0 <= width <= 0xffff_ffff_ffff_ffffu128,
    ;
    let covered: u128 = (limit as u128) * (width as u128);
    if covered < len as u128 {
        covered as u64
    } else {
        len
    }
}

/// The size of the pieces that a parallel hex dump reads: whole lines, as
/// many as fit in `chunk_size` bytes, and at least one.
pub fn dump_chunk_size(chunk_size: usize, width: usize) -> (r: usize)
    requires
        width >= 1,
    ensures
        chunk_size < width ==> r == width,
        chunk_size >= width ==> r as int == chunk_size as int - (chunk_size as int) % (width as int),
        (r as int) % (width as int) == 0,
        r >= width,
{
    if chunk_size < width {
        proof {
            vstd::arithmetic::div_mod::lemma_mod_self_0(width as int);
        }
        width
    } else {
        let r = chunk_size - chunk_size % width;
        proof {
            vstd::arithmetic::div_mod::lemma_fundamental_div_mod(chunk_size as int, width as int);
            vstd::arithmetic::div_mod::lemma_mod_multiples_basic(chunk_size as int / width as int, width as int);
            assert(chunk_size as int / width as int >= 1) by {
                vstd::arithmetic::div_mod::lemma_div_is_ordered(width as int, chunk_size as int, width as int);
                vstd::arithmetic::div_mod::lemma_div_by_self(width as int);
            }
            let q = chunk_size as int / width as int;
            assert(r == width as int * q);
            vstd::arithmetic::mul::lemma_mul_is_commutative(width as int, q);
            vstd::arithmetic::mul::lemma_mul_inequality(1, q, width as int);
        }
        r
    }
}

} // verus!
