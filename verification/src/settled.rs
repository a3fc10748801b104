//! Trimming what has been trimmed: when a second run over the output of a
//! first one changes nothing.

use vstd::prelude::*;
use crate::record::{RecordLocator, NEWLINE, SEPARATOR, SENTINEL};
use crate::scan::{
    has_record, is_line_end, is_record, lemma_record_found, lemma_record_is, locator_of,
    record_lines, shape_fault, Lines,
};
use crate::stream::{
    lemma_stream_ends, lemma_stream_goes_on, lemma_stream_step, prepend, trimmed_stream,
};
use crate::window::TrimConfig;

verus! {

/// What the decision keeps of the record's read is kept whole by a second
/// decision.
pub open spec fn record_settled(rec: RecordLocator, text: Seq<u8>, config: &TrimConfig) -> bool {
    let decided = rec.decided(text, config);
    let bases = rec.bases(text).subrange(decided.start as int, decided.stop as int);
    let quals = rec.quals(text).subrange(decided.start as int, decided.stop as int);
    &&& config.start_spec(bases, quals) == 0
    &&& config.stop_spec(bases, quals) == decided.stop - decided.start
}

/// Every record of `input` from `from` on is settled.
pub open spec fn stream_settled(input: Seq<u8>, from: int, config: &TrimConfig) -> bool
    decreases input.len() - from,
    via stream_settled_decreases
{
    let limit = input.len() as int;
    let lines = record_lines(input, from, limit);
    has_record(input, from, limit) ==> {
        &&& record_settled(locator_of(from, lines), input, config)
        &&& stream_settled(input, lines.end, config)
    }
}

/// A record ends behind its start and within the input, so the stream
/// behind it is shorter.
#[via_fn]
proof fn stream_settled_decreases(input: Seq<u8>, from: int, config: &TrimConfig) {
    if has_record(input, from, input.len() as int) {
        lemma_record_found(input, from, input.len() as int);
    }
}

/// The output text of a record, byte by byte: the header as it stands, then
/// the trimmed body.
proof fn lemma_output_byte(rec: RecordLocator, text: Seq<u8>, config: &TrimConfig, i: int)
    requires
        rec.wf(),
        rec.end <= text.len(),
        0 <= i < rec.seq_start - rec.name_start + 2 * rec.decided(text, config).kept() + 4,
    ensures
        rec.decided(text, config).wf(),
        rec.output(text, config).len() == rec.seq_start - rec.name_start + 2 * rec.decided(
            text,
            config,
        ).kept() + 4,
        rec.output(text, config)[i] == if i < rec.seq_start - rec.name_start {
            text[rec.name_start + i]
        } else {
            rec.decided(text, config).body_byte(text, i - (rec.seq_start - rec.name_start))
        },
{
    config.lemma_window_bounds(rec.bases(text), rec.quals(text));
    let decided = rec.decided(text, config);
    let head = rec.seq_start - rec.name_start;
    if i >= head {
        decided.lemma_body_byte(text, i - head);
    } else {
        decided.lemma_body_byte(text, 0);
    }
}

/// `other` holds at `at` the output text of the record: its header as it
/// stands in `text`, then its trimmed body.
#[verifier::opaque]
spec fn holds_output(
    rec: RecordLocator,
    text: Seq<u8>,
    config: &TrimConfig,
    other: Seq<u8>,
    at: int,
) -> bool {
    let head = rec.seq_start - rec.name_start;
    let decided = rec.decided(text, config);
    &&& 0 <= at
    &&& at + head + 2 * decided.kept() + 4 <= other.len()
    &&& forall|i: int|
        0 <= i < head + 2 * decided.kept() + 4 ==> #[trigger] other[at + i] == if i < head {
            text[rec.name_start + i]
        } else {
            decided.body_byte(text, i - head)
        }
}

/// A text that has the record's output text as a stretch of it holds that
/// output.
proof fn lemma_holds_output(
    rec: RecordLocator,
    text: Seq<u8>,
    config: &TrimConfig,
    other: Seq<u8>,
    at: int,
)
    requires
        rec.wf(),
        rec.end <= text.len(),
        0 <= at,
        at + rec.output(text, config).len() <= other.len(),
        other.subrange(at, at + rec.output(text, config).len()) == rec.output(text, config),
    ensures
        holds_output(rec, text, config, other, at),
        rec.decided(text, config).wf(),
        rec.output(text, config).len() == rec.seq_start - rec.name_start + 2 * rec.decided(
            text,
            config,
        ).kept() + 4,
{
    reveal(holds_output);
    let out = rec.output(text, config);
    config.lemma_window_bounds(rec.bases(text), rec.quals(text));
    lemma_output_byte(rec, text, config, 0);
    let head = rec.seq_start - rec.name_start;
    let decided = rec.decided(text, config);
    assert forall|i: int| 0 <= i < out.len() implies #[trigger] other[at + i] == if i < head {
        text[rec.name_start + i]
    } else {
        decided.body_byte(text, i - head)
    } by {
        lemma_output_byte(rec, text, config, i);
        assert(other.subrange(at, at + out.len())[i] == other[at + i]);
    }
}

/// Where the four lines of the record's output text end when it lies at
/// `at`.
spec fn output_lines(rec: RecordLocator, kept: int, at: int) -> Lines {
    let head = rec.seq_start - rec.name_start;
    Lines {
        seq_start: at + head,
        plus_start: at + head + kept + 1,
        qual_start: at + head + kept + 3,
        end: at + head + 2 * kept + 4,
    }
}

/// The lines of a located record, as the scanner's predicates see them.
spec fn lines_of(rec: RecordLocator) -> Lines {
    Lines {
        seq_start: rec.seq_start as int,
        plus_start: rec.plus_start as int,
        qual_start: rec.qual_start as int,
        end: rec.end as int,
    }
}

/// The header of the output text is a line.
proof fn lemma_output_header_line(
    rec: RecordLocator,
    text: Seq<u8>,
    config: &TrimConfig,
    other: Seq<u8>,
    at: int,
)
    requires
        is_line_end(text, rec.name_start as int, text.len() as int, rec.seq_start as int),
        rec.wf(),
        rec.decided(text, config).wf(),
        holds_output(rec, text, config, other, at),
    ensures
        is_line_end(
            other,
            at,
            other.len() as int,
            output_lines(rec, rec.decided(text, config).kept(), at).seq_start,
        ),
        other[at] == text[rec.name_start as int],
{
    reveal(holds_output);
    let head = rec.seq_start - rec.name_start;
    assert(other[at + (head - 1)] == text[rec.name_start + (head - 1)]);
    assert(other[at + 0] == text[rec.name_start + 0]);
    assert forall|j: int| at <= j < at + head - 1 implies other[j] != NEWLINE by {
        assert(other[at + (j - at)] == text[rec.name_start + (j - at)]);
    }
}

/// The kept bases of the output text are a line.
proof fn lemma_output_bases_line(
    rec: RecordLocator,
    text: Seq<u8>,
    config: &TrimConfig,
    other: Seq<u8>,
    at: int,
)
    requires
        is_line_end(text, rec.seq_start as int, text.len() as int, rec.plus_start as int),
        rec.wf(),
        rec.decided(text, config).wf(),
        holds_output(rec, text, config, other, at),
    ensures
        is_line_end(
            other,
            output_lines(rec, rec.decided(text, config).kept(), at).seq_start,
            other.len() as int,
            output_lines(rec, rec.decided(text, config).kept(), at).plus_start,
        ),
{
    reveal(holds_output);
    let head = rec.seq_start - rec.name_start;
    let decided = rec.decided(text, config);
    let kept = decided.kept();
    assert(other[at + (head + kept)] == NEWLINE);
    assert forall|j: int| at + head <= j < at + head + kept implies other[j] != NEWLINE by {
        assert(other[at + (j - at)] == text[rec.seq_start + decided.start + (j - at - head)]);
    }
}

/// The separator of the output text is a line, and one that is not empty.
proof fn lemma_output_separator_line(
    rec: RecordLocator,
    text: Seq<u8>,
    config: &TrimConfig,
    other: Seq<u8>,
    at: int,
)
    requires
        rec.wf(),
        rec.decided(text, config).wf(),
        holds_output(rec, text, config, other, at),
    ensures
        is_line_end(
            other,
            output_lines(rec, rec.decided(text, config).kept(), at).plus_start,
            other.len() as int,
            output_lines(rec, rec.decided(text, config).kept(), at).qual_start,
        ),
{
    reveal(holds_output);
    let head = rec.seq_start - rec.name_start;
    let kept = rec.decided(text, config).kept();
    assert(other[at + (head + kept + 1)] == SEPARATOR);
    assert(other[at + (head + kept + 2)] == NEWLINE);
}

/// The kept quality characters of the output text are a line.
proof fn lemma_output_quals_line(
    rec: RecordLocator,
    text: Seq<u8>,
    config: &TrimConfig,
    other: Seq<u8>,
    at: int,
)
    requires
        is_line_end(text, rec.qual_start as int, text.len() as int, rec.end as int),
        rec.wf(),
        rec.decided(text, config).wf(),
        holds_output(rec, text, config, other, at),
    ensures
        is_line_end(
            other,
            output_lines(rec, rec.decided(text, config).kept(), at).qual_start,
            other.len() as int,
            output_lines(rec, rec.decided(text, config).kept(), at).end,
        ),
{
    reveal(holds_output);
    let head = rec.seq_start - rec.name_start;
    let decided = rec.decided(text, config);
    let kept = decided.kept();
    assert(other[at + (head + 2 * kept + 3)] == NEWLINE);
    assert forall|j: int|
        at + head + kept + 3 <= j < at + head + 2 * kept + 3 implies other[j] != NEWLINE by {
        assert(other[at + (j - at)] == text[rec.qual_start + decided.start + (j - at - head - kept
            - 3)]);
    }
}

/// The record that the output text is holds the header, the kept bases and
/// the kept quality characters of the record it came from.
proof fn lemma_output_parts(
    rec: RecordLocator,
    text: Seq<u8>,
    config: &TrimConfig,
    other: Seq<u8>,
    at: int,
)
    requires
        rec.wf(),
        rec.end <= text.len(),
        other.len() <= usize::MAX,
        rec.decided(text, config).wf(),
        holds_output(rec, text, config, other, at),
    ensures
        ({
            let decided = rec.decided(text, config);
            let again = locator_of(at, output_lines(rec, decided.kept(), at));
            &&& again.wf()
            &&& again.name_start == at
            &&& again.end == at + rec.seq_start - rec.name_start + 2 * decided.kept() + 4
            &&& again.seq_len() == decided.kept()
            &&& again.header(other) == rec.header(text)
            &&& again.bases(other) == rec.bases(text).subrange(
                decided.start as int,
                decided.stop as int,
            )
            &&& again.quals(other) == rec.quals(text).subrange(
                decided.start as int,
                decided.stop as int,
            )
        }),
{
    reveal(holds_output);
    let decided = rec.decided(text, config);
    let head = rec.seq_start - rec.name_start;
    let kept = decided.kept();
    let again = locator_of(at, output_lines(rec, kept, at));
    assert forall|j: int| 0 <= j < head implies again.header(other)[j] == rec.header(text)[j] by {
        assert(other[at + j] == text[rec.name_start + j]);
    }
    assert(again.header(other) =~= rec.header(text));
    let kept_bases = rec.bases(text).subrange(decided.start as int, decided.stop as int);
    let kept_quals = rec.quals(text).subrange(decided.start as int, decided.stop as int);
    assert forall|j: int| 0 <= j < kept implies again.bases(other)[j] == kept_bases[j]
        && again.quals(other)[j] == kept_quals[j] by {
        assert(other[at + (head + j)] == text[rec.seq_start + decided.start + j]);
        assert(other[at + (head + kept + 3 + j)] == text[rec.qual_start + decided.start + j]);
    }
    assert(again.bases(other) =~= kept_bases);
    assert(again.quals(other) =~= kept_quals);
}

/// The output text of a sound record is a sound record again, wherever it
/// lies: its four lines end where the header, the kept bases, the separator
/// and the kept quality characters end.
proof fn lemma_output_is_record(
    rec: RecordLocator,
    text: Seq<u8>,
    config: &TrimConfig,
    other: Seq<u8>,
    at: int,
)
    requires
        other.len() <= usize::MAX,
        is_record(text, rec.name_start as int, text.len() as int, lines_of(rec)),
        rec.wf(),
        text[rec.name_start as int] == SENTINEL,
        rec.decided(text, config).wf(),
        holds_output(rec, text, config, other, at),
    ensures
        has_record(other, at, other.len() as int),
        record_lines(other, at, other.len() as int) == output_lines(
            rec,
            rec.decided(text, config).kept(),
            at,
        ),
        shape_fault(other, at, record_lines(other, at, other.len() as int)) is None,
{
    lemma_output_header_line(rec, text, config, other, at);
    lemma_output_bases_line(rec, text, config, other, at);
    lemma_output_separator_line(rec, text, config, other, at);
    lemma_output_quals_line(rec, text, config, other, at);
    let lines = output_lines(rec, rec.decided(text, config).kept(), at);
    lemma_record_is(other, at, other.len() as int, lines);
}

/// The output text of a settled record is its own output text: trimmed
/// again where it lies in `other`, it comes out as it went in.
proof fn lemma_settled_output_kept(
    rec: RecordLocator,
    text: Seq<u8>,
    config: &TrimConfig,
    other: Seq<u8>,
    at: int,
)
    requires
        other.len() <= usize::MAX,
        rec.wf(),
        rec.end <= text.len(),
        record_settled(rec, text, config),
        0 <= at,
        at + rec.output(text, config).len() <= other.len(),
        other.subrange(at, at + rec.output(text, config).len()) == rec.output(text, config),
    ensures
        locator_of(at, output_lines(rec, rec.decided(text, config).kept(), at)).output(
            other,
            config,
        ) == rec.output(text, config),
{
    lemma_holds_output(rec, text, config, other, at);
    lemma_output_parts(rec, text, config, other, at);
    let decided = rec.decided(text, config);
    let kept = decided.kept();
    let out = rec.output(text, config);
    let again = locator_of(at, output_lines(rec, kept, at));
    let settled = again.decided(other, config);
    assert(settled.start == 0 && settled.stop == kept);
    assert(settled.wf());
    let body = settled.trimmed_body(other);
    let span = other.subrange(at, at + out.len());
    assert(again.header(other) + body =~= span) by {
        settled.lemma_body_byte(other, 0);
        assert forall|i: int| 0 <= i < out.len() implies (again.header(other) + body)[i]
            == span[i] by {
            let head = rec.seq_start - rec.name_start;
            if i >= head {
                settled.lemma_body_byte(other, i - head);
                lemma_output_byte(rec, text, config, i);
                assert(span[i] == other[at + i]);
            }
        }
    }
}

/// One step of the second run: behind `front`, the output text of a sound
/// and settled record is found as a record that fits the arena, and is
/// trimmed to itself.
proof fn lemma_settled_step(
    rec: RecordLocator,
    text: Seq<u8>,
    capacity: int,
    config: &TrimConfig,
    whole: Seq<u8>,
    at: int,
)
    requires
        whole.len() <= usize::MAX,
        is_record(text, rec.name_start as int, text.len() as int, lines_of(rec)),
        rec.wf(),
        rec.end <= text.len(),
        rec.end - rec.name_start <= capacity,
        text[rec.name_start as int] == SENTINEL,
        record_settled(rec, text, config),
        0 <= at,
        at + rec.output(text, config).len() <= whole.len(),
        whole.subrange(at, at + rec.output(text, config).len()) == rec.output(text, config),
    ensures
        trimmed_stream(whole, at, capacity, config) == prepend(
            rec.output(text, config),
            trimmed_stream(whole, at + rec.output(text, config).len(), capacity, config),
        ),
{
    lemma_holds_output(rec, text, config, whole, at);
    lemma_output_is_record(rec, text, config, whole, at);
    lemma_settled_output_kept(rec, text, config, whole, at);
    lemma_stream_step(whole, at, capacity, config);
}

/// A stream of which every record is settled comes out of a second run as
/// it came out of the first: behind any text `front`, the output of the
/// stream from `from` on is trimmed to itself.
pub proof fn lemma_settled_stream_behind(
    input: Seq<u8>,
    from: int,
    capacity: int,
    config: &TrimConfig,
    front: Seq<u8>,
)
    requires
        0 <= from <= input.len() <= usize::MAX,
        trimmed_stream(input, from, capacity, config) is Ok,
        stream_settled(input, from, config),
        front.len() + input.len() - from <= usize::MAX,
    ensures
        trimmed_stream(input, from, capacity, config)->Ok_0.len() <= input.len() - from,
        trimmed_stream(
            front + trimmed_stream(input, from, capacity, config)->Ok_0,
            front.len() as int,
            capacity,
            config,
        ) == trimmed_stream(input, from, capacity, config),
    decreases input.len() - from,
{
    let limit = input.len() as int;
    let tail = trimmed_stream(input, from, capacity, config)->Ok_0;
    if has_record(input, from, limit) {
        let lines = record_lines(input, from, limit);
        lemma_record_found(input, from, limit);
        lemma_stream_goes_on(input, from, capacity, config);
        lemma_stream_step(input, from, capacity, config);
        let rec = locator_of(from, lines);
        assert(lines_of(rec) == lines);
        let out = rec.output(input, config);
        let rest = trimmed_stream(input, lines.end, capacity, config)->Ok_0;
        config.lemma_window_bounds(rec.bases(input), rec.quals(input));
        lemma_output_byte(rec, input, config, 0);
        let whole = front + tail;
        let ahead = front + out;
        assert(whole =~= ahead + rest);
        assert(whole.subrange(front.len() as int, (front.len() + out.len()) as int) =~= out);
        lemma_settled_stream_behind(input, lines.end, capacity, config, ahead);
        lemma_settled_step(rec, input, capacity, config, whole, front.len() as int);
    } else {
        lemma_stream_ends(input, from, capacity, config);
        assert(front + tail =~= front);
        assert(!has_record(front, front.len() as int, front.len() as int)) by {
            if has_record(front, front.len() as int, front.len() as int) {
                lemma_record_found(front, front.len() as int, front.len() as int);
            }
        }
        lemma_stream_ends(front, front.len() as int, capacity, config);
    }
}

/// Trimming the output of a stream of which every record is settled gives
/// that output again.
pub proof fn lemma_settled_stream_kept(input: Seq<u8>, capacity: int, config: &TrimConfig)
    requires
        input.len() <= usize::MAX,
        trimmed_stream(input, 0, capacity, config) is Ok,
        stream_settled(input, 0, config),
    ensures
        trimmed_stream(
            trimmed_stream(input, 0, capacity, config)->Ok_0,
            0,
            capacity,
            config,
        ) == trimmed_stream(input, 0, capacity, config),
{
    let out = trimmed_stream(input, 0, capacity, config)->Ok_0;
    lemma_settled_stream_behind(input, 0, capacity, config, Seq::empty());
    assert(Seq::<u8>::empty() + out =~= out);
}

} // verus!
