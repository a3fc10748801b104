//! Record boundaries in a text of bytes: where lines end, where four of
//! them make a record, and what carries over when the same bytes lie
//! elsewhere.

use vstd::prelude::*;
use crate::error::TrimError;
use crate::record::{NEWLINE, RecordLocator, SENTINEL};

verus! {


/// No line terminator lies in `text[from..to]`.
pub open spec fn no_newline(text: Seq<u8>, from: int, to: int) -> bool {
    forall|j: int| from <= j < to ==> text[j] != NEWLINE
}

/// `p` is the offset just past the first line terminator at or after
/// `from`, where only the bytes below `limit` count.
pub open spec fn is_line_end(text: Seq<u8>, from: int, limit: int, p: int) -> bool {
    &&& 0 <= from < p <= limit
    &&& p <= text.len()
    &&& text[p - 1] == NEWLINE
    &&& no_newline(text, from, p - 1)
}

/// A line that starts at `from` ends below `limit`.
pub open spec fn has_line(text: Seq<u8>, from: int, limit: int) -> bool {
    exists|p: int| is_line_end(text, from, limit, p)
}

/// The offset just past the line that starts at `from`.
pub open spec fn line_end(text: Seq<u8>, from: int, limit: int) -> int {
    choose|p: int| is_line_end(text, from, limit, p)
}

/// The line that starts at `from` ends at no other place than `p`.
pub proof fn lemma_line_end_is(text: Seq<u8>, from: int, limit: int, p: int)
    requires
        is_line_end(text, from, limit, p),
    ensures
        has_line(text, from, limit),
        line_end(text, from, limit) == p,
{
    let c = line_end(text, from, limit);
    assert(is_line_end(text, from, limit, c));
    if c < p {
        assert(text[c - 1] != NEWLINE);
    }
    if p < c {
        assert(text[p - 1] != NEWLINE);
    }
}

/// Where the four lines of a record end: each offset is one past a line
/// terminator and is where the next line starts.
pub struct Lines {
    pub seq_start: int,
    pub plus_start: int,
    pub qual_start: int,
    pub end: int,
}

/// Four complete lines start at `from` and end below `limit`.
pub open spec fn has_record(text: Seq<u8>, from: int, limit: int) -> bool {
    let r = line_end(text, from, limit);
    let o = line_end(text, r, limit);
    let q = line_end(text, o, limit);
    &&& has_line(text, from, limit)
    &&& has_line(text, r, limit)
    &&& has_line(text, o, limit)
    &&& has_line(text, q, limit)
}

/// Where the four lines that start at `from` end.
pub open spec fn record_lines(text: Seq<u8>, from: int, limit: int) -> Lines {
    let r = line_end(text, from, limit);
    let o = line_end(text, r, limit);
    let q = line_end(text, o, limit);
    Lines { seq_start: r, plus_start: o, qual_start: q, end: line_end(text, q, limit) }
}

impl Lines {
    /// The same line ends, seen from a text that holds the record `delta`
    /// bytes further on.
    pub open spec fn moved(self, delta: int) -> Lines {
        Lines {
            seq_start: self.seq_start + delta,
            plus_start: self.plus_start + delta,
            qual_start: self.qual_start + delta,
            end: self.end + delta,
        }
    }
}

/// `lines` are where the four lines that start at `from` end, all of them
/// below `limit`.
pub open spec fn is_record(text: Seq<u8>, from: int, limit: int, lines: Lines) -> bool {
    &&& is_line_end(text, from, limit, lines.seq_start)
    &&& is_line_end(text, lines.seq_start, limit, lines.plus_start)
    &&& is_line_end(text, lines.plus_start, limit, lines.qual_start)
    &&& is_line_end(text, lines.qual_start, limit, lines.end)
}

/// Four lines found one after the other are the record at that place.
pub proof fn lemma_record_is(text: Seq<u8>, from: int, limit: int, lines: Lines)
    requires
        is_record(text, from, limit, lines),
    ensures
        has_record(text, from, limit),
        record_lines(text, from, limit) == lines,
{
    lemma_line_end_is(text, from, limit, lines.seq_start);
    lemma_line_end_is(text, lines.seq_start, limit, lines.plus_start);
    lemma_line_end_is(text, lines.plus_start, limit, lines.qual_start);
    lemma_line_end_is(text, lines.qual_start, limit, lines.end);
}

/// A place that has a record has its four lines where `record_lines` says.
pub proof fn lemma_record_found(text: Seq<u8>, from: int, limit: int)
    requires
        has_record(text, from, limit),
    ensures
        is_record(text, from, limit, record_lines(text, from, limit)),
{
    let r = line_end(text, from, limit);
    let o = line_end(text, r, limit);
    let q = line_end(text, o, limit);
    let e = line_end(text, q, limit);
    assert(is_line_end(text, from, limit, r));
    assert(is_line_end(text, r, limit, o));
    assert(is_line_end(text, o, limit, q));
    assert(is_line_end(text, q, limit, e));
}

/// `other` holds, `delta` bytes further on, the bytes that `text` holds
/// from `from` up to `limit`.
#[verifier::opaque]
pub open spec fn holds_moved(text: Seq<u8>, from: int, limit: int, other: Seq<u8>, delta: int) -> bool {
    &&& 0 <= from <= limit <= text.len()
    &&& 0 <= from + delta
    &&& limit + delta <= other.len()
    &&& forall|j: int| from <= j < limit ==> text[j] == #[trigger] other[j + delta]
}

/// A line end is a line end in any text that holds the same bytes,
/// wherever it holds them.
pub proof fn lemma_line_end_moved(
    text: Seq<u8>,
    from: int,
    limit: int,
    other: Seq<u8>,
    delta: int,
    at: int,
    p: int,
)
    requires
        holds_moved(text, from, limit, other, delta),
        from <= at,
        is_line_end(text, at, limit, p),
    ensures
        is_line_end(other, at + delta, limit + delta, p + delta),
{
    reveal(holds_moved);
    assert(text[p - 1] == other[p - 1 + delta]);
    assert forall|j: int| at + delta <= j < p - 1 + delta implies other[j] != NEWLINE by {
        assert(text[j - delta] == other[j - delta + delta]);
    }
}

/// A record is a record in any text that holds the same bytes, wherever it
/// holds them.
pub proof fn lemma_record_moved(
    text: Seq<u8>,
    from: int,
    limit: int,
    other: Seq<u8>,
    delta: int,
    at: int,
)
    requires
        holds_moved(text, from, limit, other, delta),
        from <= at,
        has_record(text, at, limit),
    ensures
        has_record(other, at + delta, limit + delta),
        record_lines(other, at + delta, limit + delta)
            == record_lines(text, at, limit).moved(delta),
        shape_fault(other, at + delta, record_lines(text, at, limit).moved(delta)) == shape_fault(
            text,
            at,
            record_lines(text, at, limit),
        ),
{
    lemma_record_found(text, at, limit);
    let lines = record_lines(text, at, limit);
    lemma_line_end_moved(text, from, limit, other, delta, at, lines.seq_start);
    lemma_line_end_moved(text, from, limit, other, delta, lines.seq_start, lines.plus_start);
    lemma_line_end_moved(text, from, limit, other, delta, lines.plus_start, lines.qual_start);
    lemma_line_end_moved(text, from, limit, other, delta, lines.qual_start, lines.end);
    lemma_record_is(other, at + delta, limit + delta, lines.moved(delta));
    assert(text[at] == other[at + delta]) by {
        reveal(holds_moved);
    }
}

/// Holding moved bytes goes both ways.
pub proof fn lemma_holds_moved_back(text: Seq<u8>, from: int, limit: int, other: Seq<u8>, delta: int)
    requires
        holds_moved(text, from, limit, other, delta),
    ensures
        holds_moved(other, from + delta, limit + delta, text, -delta),
{
    reveal(holds_moved);
    assert forall|j: int| from + delta <= j < limit + delta implies other[j] == #[trigger] text[j
        + (-delta)] by {
        assert(text[j - delta] == other[j - delta + delta]);
    }
}

/// A later, shorter stretch of moved bytes is held moved as well.
pub proof fn lemma_holds_moved_part(
    text: Seq<u8>,
    from: int,
    limit: int,
    other: Seq<u8>,
    delta: int,
    later: int,
    sooner: int,
)
    requires
        holds_moved(text, from, limit, other, delta),
        from <= later <= sooner <= limit,
    ensures
        holds_moved(text, later, sooner, other, delta),
{
    reveal(holds_moved);
}

/// Holding moved bytes carries over from text to text.
pub proof fn lemma_holds_moved_twice(
    text: Seq<u8>,
    from: int,
    limit: int,
    middle: Seq<u8>,
    first: int,
    other: Seq<u8>,
    second: int,
)
    requires
        holds_moved(text, from, limit, middle, first),
        holds_moved(middle, from + first, limit + first, other, second),
    ensures
        holds_moved(text, from, limit, other, first + second),
{
    reveal(holds_moved);
    assert forall|j: int| from <= j < limit implies text[j] == #[trigger] other[j + (first
        + second)] by {
        assert(text[j] == middle[j + first]);
        assert(middle[j + first] == other[j + first + second]);
    }
}

/// Whether a stretch holds a complete record depends on no byte outside
/// the stretch.
pub proof fn lemma_no_record_moved(text: Seq<u8>, from: int, limit: int, other: Seq<u8>, delta: int)
    requires
        holds_moved(text, from, limit, other, delta),
        !has_record(text, from, limit),
    ensures
        !has_record(other, from + delta, limit + delta),
{
    if has_record(other, from + delta, limit + delta) {
        lemma_holds_moved_back(text, from, limit, other, delta);
        lemma_record_moved(other, from + delta, limit + delta, text, -delta, from + delta);
    }
}

/// A record found below one limit is found below every later limit.
pub proof fn lemma_record_limit_up(text: Seq<u8>, at: int, limit: int, later: int)
    requires
        limit <= later <= text.len(),
        has_record(text, at, limit),
    ensures
        has_record(text, at, later),
        record_lines(text, at, later) == record_lines(text, at, limit),
{
    lemma_record_found(text, at, limit);
    lemma_record_is(text, at, later, record_lines(text, at, limit));
}

/// A record that ends at or below an earlier limit is found below that
/// limit too.
pub proof fn lemma_record_limit_down(text: Seq<u8>, at: int, limit: int, earlier: int)
    requires
        has_record(text, at, limit),
        record_lines(text, at, limit).end <= earlier,
    ensures
        has_record(text, at, earlier),
        record_lines(text, at, earlier) == record_lines(text, at, limit),
{
    lemma_record_found(text, at, limit);
    lemma_record_is(text, at, earlier, record_lines(text, at, limit));
}

/// What is wrong with the four lines at `from` as a record, if anything:
/// the header must begin with the sentinel, the separator line must hold at
/// least one byte before its terminator, and the quality line must be at
/// least as long as the base-call line.
pub open spec fn shape_fault(text: Seq<u8>, from: int, lines: Lines) -> Option<TrimError> {
    if text[from] != SENTINEL {
        Some(TrimError::MissingSentinel)
    } else if lines.qual_start - lines.plus_start < 2 {
        Some(TrimError::EmptySeparator)
    } else if lines.end - lines.qual_start < lines.plus_start - lines.seq_start {
        Some(TrimError::ShortQuality)
    } else {
        None
    }
}

/// The locator of the record whose header starts at `from`, with the
/// window that keeps every base.
pub open spec fn locator_of(from: int, lines: Lines) -> RecordLocator {
    RecordLocator {
        name_start: from as usize,
        seq_start: lines.seq_start as usize,
        plus_start: lines.plus_start as usize,
        qual_start: lines.qual_start as usize,
        end: lines.end as usize,
        start: 0,
        stop: (lines.plus_start - lines.seq_start - 1) as usize,
    }
}

/// Where record `i` of a run of records starts when the run starts at
/// `from`: where the record before it ends.
pub open spec fn record_start(recs: Seq<RecordLocator>, from: int, i: int) -> int {
    if i <= 0 {
        from
    } else {
        recs[i - 1].end as int
    }
}

/// Record `i` of `recs` is the record found at the place where the one
/// before it ends (the first one at `from`): it is complete below `limit`
/// and sound.
pub open spec fn is_scanned_at(
    text: Seq<u8>,
    from: int,
    limit: int,
    recs: Seq<RecordLocator>,
    i: int,
) -> bool {
    let at = record_start(recs, from, i);
    &&& has_record(text, at, limit)
    &&& shape_fault(text, at, record_lines(text, at, limit)) is None
    &&& recs[i] == locator_of(at, record_lines(text, at, limit))
}

/// `recs` are the records found one after another from `from` on.
pub open spec fn is_scanned_run(
    text: Seq<u8>,
    from: int,
    limit: int,
    recs: Seq<RecordLocator>,
) -> bool {
    forall|i: int| 0 <= i < recs.len() ==> #[trigger] is_scanned_at(text, from, limit, recs, i)
}

/// Record `i` of `recs` is well formed, starts where the one before it
/// ends (the first one at `from`), and ends at or below `limit`.
pub open spec fn is_link(recs: Seq<RecordLocator>, from: int, limit: int, i: int) -> bool {
    &&& recs[i].wf()
    &&& recs[i].name_start == record_start(recs, from, i)
    &&& recs[i].end <= limit
}

/// The records lie one directly behind the other from `from` on, each
/// well formed and below `limit`. Their spans are therefore disjoint and
/// in the order of the sequence.
pub open spec fn is_chain(recs: Seq<RecordLocator>, from: int, limit: int) -> bool {
    forall|i: int| 0 <= i < recs.len() ==> #[trigger] is_link(recs, from, limit, i)
}

/// Of two records of a chain, the earlier ends before the later starts, and
/// none starts before the chain does.
pub proof fn lemma_chain_ordered(recs: Seq<RecordLocator>, from: int, limit: int, i: int, j: int)
    requires
        is_chain(recs, from, limit),
        0 <= i < j < recs.len(),
    ensures
        from <= recs[i].name_start,
        recs[i].end <= recs[j].name_start,
    decreases j,
{
    assert(is_link(recs, from, limit, j));
    assert(is_link(recs, from, limit, j - 1));
    assert(is_link(recs, from, limit, i));
    if i < j - 1 {
        lemma_chain_ordered(recs, from, limit, i, j - 1);
    } else if i > 0 {
        lemma_chain_ordered(recs, from, limit, i - 1, i);
        assert(is_link(recs, from, limit, i - 1));
    }
}

} // verus!
