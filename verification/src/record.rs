//! Record locators and the in-place rewriting of a record to its trimmed
//! form.

use vstd::prelude::*;
use vstd::slice::slice_subrange;
use crate::window::TrimConfig;

verus! {

/// The line terminator.
pub const NEWLINE: u8 = 10;

/// The first byte of a record's header line: ASCII '@'.
pub const SENTINEL: u8 = 64;

/// The marker that makes up the separator line of a written record:
/// ASCII '+'.
pub const SEPARATOR: u8 = 43;

/// Where one record lies in a byte buffer: the offsets at which its four
/// lines start, the offset one past its last line, and the window of its
/// bases that is kept. A locator owns no bytes.
#[derive(Clone, Copy, Debug, PartialEq, Eq, Structural)]
pub struct RecordLocator {
    /// Start of the header line.
    pub name_start: usize,
    /// Start of the base-call line.
    pub seq_start: usize,
    /// Start of the separator line.
    pub plus_start: usize,
    /// Start of the quality line.
    pub qual_start: usize,
    /// One past the terminator of the quality line.
    pub end: usize,
    /// First kept base, counted from `seq_start`.
    pub start: usize,
    /// One past the last kept base, counted from `seq_start`.
    pub stop: usize,
}

/// Copies `len` bytes within a buffer from `src` down to `dst`; the two
/// stretches may overlap. Every byte outside the destination stays as it
/// was.
pub fn move_down(buf: &mut [u8], src: usize, dst: usize, len: usize)
    requires
        dst <= src,
        src + len <= old(buf)@.len(),
    ensures
        final(buf)@.len() == old(buf)@.len(),
        forall|j: int| 0 <= j < dst ==> final(buf)@[j] == old(buf)@[j],
        forall|j: int| dst <= j < dst + len ==> final(buf)@[j] == old(buf)@[src + j - dst],
        forall|j: int| dst + len <= j < old(buf)@.len() ==> final(buf)@[j] == old(buf)@[j],
{
    let ghost before = buf@;
    let mut i: usize = 0;
    while i < len
        invariant
            dst <= src,
            src + len <= before.len(),
            buf@.len() == before.len(),
            buf.len() == before.len(),
            0 <= i <= len,
            forall|j: int| 0 <= j < dst ==> buf@[j] == before[j],
            forall|j: int| dst <= j < dst + i ==> buf@[j] == before[src + j - dst],
            forall|j: int| dst + i <= j < before.len() ==> buf@[j] == before[j],
        decreases len - i,
    {
        let byte = buf[src + i];
        buf[dst + i] = byte;
        i = i + 1;
    }
}

/// Lays down one line: moves `len` bytes from `src` down to `dst` and puts
/// a line terminator behind them.
fn lay_line(buf: &mut [u8], src: usize, dst: usize, len: usize)
    requires
        dst <= src,
        src + len < old(buf).len(),
    ensures
        final(buf)@.len() == old(buf)@.len(),
        forall|j: int|
            0 <= j < old(buf)@.len() ==> #[trigger] final(buf)@[j] == if dst <= j < dst + len {
                old(buf)@[src + j - dst]
            } else if j == dst + len {
                NEWLINE
            } else {
                old(buf)@[j]
            },
{
    move_down(buf, src, dst, len);
    buf[dst + len] = NEWLINE;
}

impl RecordLocator {
    /// Number of bases on the base-call line.
    pub open spec fn seq_len(&self) -> int {
        self.plus_start - self.seq_start - 1
    }

    /// Number of bases in the kept window.
    pub open spec fn kept(&self) -> int {
        self.stop - self.start
    }

    /// The offsets ascend, every line has its terminator, the separator
    /// line is not empty, the quality line has a character for every base,
    /// and the kept window lies within the bases.
    pub open spec fn wf(&self) -> bool {
        &&& self.name_start < self.seq_start < self.plus_start
        &&& self.plus_start + 2 <= self.qual_start
        &&& self.qual_start + self.seq_len() < self.end
        &&& self.start <= self.stop <= self.seq_len()
    }

    /// The base calls of the record in `buf`.
    pub open spec fn bases(&self, buf: Seq<u8>) -> Seq<u8> {
        buf.subrange(self.seq_start as int, self.plus_start - 1)
    }

    /// The quality characters of the record's bases in `buf`.
    pub open spec fn quals(&self, buf: Seq<u8>) -> Seq<u8> {
        buf.subrange(self.qual_start as int, self.qual_start + self.seq_len())
    }

    /// This locator with the kept window set to `[start, stop)`.
    pub open spec fn with_window(&self, start: int, stop: int) -> RecordLocator {
        RecordLocator { start: start as usize, stop: stop as usize, ..*self }
    }

    /// The locator of the record once it is rewritten to its kept window:
    /// the header stays, the kept bases follow it, then a two-byte
    /// separator line, then the kept quality characters; the window covers
    /// all of the bases that are left.
    pub open spec fn compacted(&self) -> RecordLocator {
        RecordLocator {
            name_start: self.name_start,
            seq_start: self.seq_start,
            plus_start: (self.seq_start + self.kept() + 1) as usize,
            qual_start: (self.seq_start + self.kept() + 3) as usize,
            end: (self.seq_start + 2 * self.kept() + 4) as usize,
            start: 0,
            stop: self.kept() as usize,
        }
    }

    /// The three lines that follow the header of the rewritten record: kept
    /// bases, separator, kept quality characters, each with its terminator.
    pub open spec fn trimmed_body(&self, buf: Seq<u8>) -> Seq<u8> {
        buf.subrange(self.seq_start + self.start, self.seq_start + self.stop) + seq![
            NEWLINE,
            SEPARATOR,
            NEWLINE,
        ] + buf.subrange(self.qual_start + self.start, self.qual_start + self.stop) + seq![
            NEWLINE,
        ]
    }

    /// The buffer after the record is rewritten in place: the trimmed body
    /// lies directly behind the header, and every byte before the record's
    /// bases and from the rewritten record's end on is as it was.
    pub open spec fn compacted_bytes(&self, buf: Seq<u8>) -> Seq<u8> {
        buf.subrange(0, self.seq_start as int) + self.trimmed_body(buf) + buf.subrange(
            self.seq_start + 2 * self.kept() + 4,
            buf.len() as int,
        )
    }

    /// Rewrites the record in place to its kept window and updates the
    /// locator to the rewritten record.
    ///
    /// Bytes are only ever moved toward the front, and nothing outside the
    /// record's own span is read or written.
    pub fn compact(&mut self, buf: &mut [u8])
        requires
            old(self).wf(),
            old(self).end <= old(buf)@.len(),
        ensures
            *final(self) == old(self).compacted(),
            final(self).wf(),
            final(self).end <= old(self).end,
            final(buf)@ == old(self).compacted_bytes(old(buf)@),
            final(buf)@.len() == old(buf)@.len(),
    {
        let ghost before = buf@;
        let ghost rec = *self;
        let r = self.seq_start;
        let size = self.stop - self.start;
        let q = r + size + 3;
        lay_line(buf, r + self.start, r, size);
        buf[r + size + 1] = SEPARATOR;
        buf[r + size + 2] = NEWLINE;
        let ghost halfway = buf@;
        lay_line(buf, self.qual_start + self.start, q, size);
        self.plus_start = r + size + 1;
        self.qual_start = q;
        self.end = q + size + 1;
        self.start = 0;
        self.stop = size;
        proof {
            let after = buf@;
            assert forall|j: int| 0 <= j < before.len() implies #[trigger] after[j] == if r <= j
                < r + 2 * size + 4 {
                rec.body_byte(before, j - r)
            } else {
                before[j]
            } by {
                if q <= j < q + size {
                    assert(after[j] == halfway[rec.qual_start + rec.start + j - q]);
                } else if j != q + size {
                    assert(after[j] == halfway[j]);
                }
            }
            rec.lemma_rewritten(before, after);
        }
    }

    /// Byte `i` of the trimmed body: a kept base, a terminator, the
    /// separator marker, or a kept quality character.
    pub open spec fn body_byte(&self, text: Seq<u8>, i: int) -> u8 {
        let kept = self.kept();
        if i < kept {
            text[self.seq_start + self.start + i]
        } else if i == kept + 1 {
            SEPARATOR
        } else if kept + 3 <= i < 2 * kept + 3 {
            text[self.qual_start + self.start + (i - kept - 3)]
        } else {
            NEWLINE
        }
    }

    /// The trimmed body, byte by byte.
    pub proof fn lemma_body_byte(&self, text: Seq<u8>, i: int)
        requires
            self.wf(),
            self.end <= text.len(),
            0 <= i < 2 * self.kept() + 4,
        ensures
            self.trimmed_body(text).len() == 2 * self.kept() + 4,
            self.trimmed_body(text)[i] == self.body_byte(text, i),
    {
    }

    /// `after` is `before` with the record rewritten in place: the trimmed
    /// body lies where the record's bases began, and every other byte is as
    /// it was.
    pub open spec fn is_rewritten(&self, before: Seq<u8>, after: Seq<u8>) -> bool {
        &&& after.len() == before.len()
        &&& forall|j: int|
            0 <= j < before.len() ==> #[trigger] after[j] == if self.seq_start <= j
                < self.seq_start + 2 * self.kept() + 4 {
                self.body_byte(before, j - self.seq_start)
            } else {
                before[j]
            }
    }

    /// A buffer in which the record is rewritten in place is the buffer
    /// that `compacted_bytes` describes.
    pub proof fn lemma_rewritten(&self, before: Seq<u8>, after: Seq<u8>)
        requires
            self.wf(),
            self.end <= before.len(),
            self.is_rewritten(before, after),
        ensures
            after == self.compacted_bytes(before),
    {
        let want = self.compacted_bytes(before);
        self.lemma_compacted_byte(before, 0);
        assert forall|j: int| 0 <= j < before.len() implies after[j] == want[j] by {
            self.lemma_compacted_byte(before, j);
        }
        assert(after =~= want);
    }

    /// Decides the kept window of the record from its bases and quality
    /// characters in `buf`, and records it in the locator.
    pub fn decide(&mut self, buf: &[u8], config: &TrimConfig)
        requires
            old(self).wf(),
            old(self).end <= buf@.len(),
            config.wf(),
        ensures
            *final(self) == old(self).with_window(
                config.start_spec(old(self).bases(buf@), old(self).quals(buf@)),
                config.stop_spec(old(self).bases(buf@), old(self).quals(buf@)),
            ),
            final(self).wf(),
    {
        let len = self.plus_start - self.seq_start - 1;
        let read = slice_subrange(buf, self.seq_start, self.seq_start + len);
        let qual = slice_subrange(buf, self.qual_start, self.qual_start + len);
        let (start, stop) = config.trim_window(read, qual);
        self.start = start;
        self.stop = stop;
    }

    /// Trims one record: decides its kept window, then rewrites it in place
    /// to that window.
    ///
    /// The rewritten record is the record's output text; every byte of the
    /// buffer that is not part of it is as before.
    pub fn process(&mut self, buf: &mut [u8], config: &TrimConfig)
        requires
            old(self).wf(),
            old(self).end <= old(buf)@.len(),
            config.wf(),
        ensures
            *final(self) == old(self).processed(old(buf)@, config),
            final(self).wf(),
            final(self).end <= old(self).end,
            final(buf)@ == old(self).processed_bytes(old(buf)@, config),
            final(buf)@.len() == old(buf)@.len(),
            final(buf)@.subrange(final(self).name_start as int, final(self).end as int)
                == old(self).output(old(buf)@, config),
            forall|j: int|
                0 <= j < old(buf)@.len() && !(old(self).seq_start <= j < final(self).end)
                    ==> final(buf)@[j] == old(buf)@[j],
    {
        let ghost before = buf@;
        let ghost rec = *self;
        self.decide(buf, config);
        self.compact(buf);
        proof {
            rec.lemma_processed(before, config);
        }
    }

    /// The record's header line in `text`, terminator included.
    pub open spec fn header(&self, text: Seq<u8>) -> Seq<u8> {
        text.subrange(self.name_start as int, self.seq_start as int)
    }

    /// The text of the record as it is written out: its header line as it
    /// stands, then the kept bases, the separator and the kept quality
    /// characters, for the window that `config` decides.
    pub open spec fn output(&self, text: Seq<u8>, config: &TrimConfig) -> Seq<u8> {
        self.header(text) + self.decided(text, config).trimmed_body(text)
    }

    /// The locator of the same record in a text that holds it `delta` bytes
    /// further on.
    pub open spec fn moved(&self, delta: int) -> RecordLocator {
        RecordLocator {
            name_start: (self.name_start + delta) as usize,
            seq_start: (self.seq_start + delta) as usize,
            plus_start: (self.plus_start + delta) as usize,
            qual_start: (self.qual_start + delta) as usize,
            end: (self.end + delta) as usize,
            start: self.start,
            stop: self.stop,
        }
    }

    /// A record has the same header, bases and quality characters in any
    /// text that holds the record's bytes, wherever it holds them.
    pub proof fn lemma_lines_moved(&self, text: Seq<u8>, other: Seq<u8>, delta: int)
        requires
            self.wf(),
            self.end <= text.len(),
            0 <= self.name_start + delta,
            self.end + delta <= other.len() <= usize::MAX,
            forall|j: int| self.name_start <= j < self.end ==>
                text[j] == #[trigger] other[j + delta],
        ensures
            self.moved(delta).wf(),
            self.moved(delta).header(other) == self.header(text),
            self.moved(delta).bases(other) == self.bases(text),
            self.moved(delta).quals(other) == self.quals(text),
    {
        let there = self.moved(delta);
        assert forall|j: int| 0 <= j < self.seq_len() implies there.bases(other)[j]
            == self.bases(text)[j] && there.quals(other)[j] == self.quals(text)[j] by {
            assert(text[self.seq_start + j] == other[self.seq_start + j + delta]);
            assert(text[self.qual_start + j] == other[self.qual_start + j + delta]);
        }
        assert(there.bases(other) =~= self.bases(text));
        assert(there.quals(other) =~= self.quals(text));
        assert forall|j: int| 0 <= j < self.seq_start - self.name_start implies there.header(
            other,
        )[j] == self.header(text)[j] by {
            assert(text[self.name_start + j] == other[self.name_start + j + delta]);
        }
        assert(there.header(other) =~= self.header(text));
    }

    /// A record has the same trimmed body in any text that holds the
    /// record's bytes, wherever it holds them.
    pub proof fn lemma_body_moved(&self, text: Seq<u8>, other: Seq<u8>, delta: int)
        requires
            self.wf(),
            self.end <= text.len(),
            0 <= self.name_start + delta,
            self.end + delta <= other.len() <= usize::MAX,
            forall|j: int| self.name_start <= j < self.end ==>
                text[j] == #[trigger] other[j + delta],
        ensures
            self.moved(delta).trimmed_body(other) == self.trimmed_body(text),
    {
        let there = self.moved(delta);
        let kept = self.kept();
        let here_bases = text.subrange(self.seq_start + self.start, self.seq_start + self.stop);
        let there_bases = other.subrange(
            there.seq_start + there.start,
            there.seq_start + there.stop,
        );
        let here_quals = text.subrange(self.qual_start + self.start, self.qual_start + self.stop);
        let there_quals = other.subrange(
            there.qual_start + there.start,
            there.qual_start + there.stop,
        );
        assert forall|j: int| 0 <= j < kept implies here_bases[j] == there_bases[j]
            && here_quals[j] == there_quals[j] by {
            assert(text[self.seq_start + self.start + j] == other[self.seq_start + self.start + j
                + delta]);
            assert(text[self.qual_start + self.start + j] == other[self.qual_start + self.start
                + j + delta]);
        }
        assert(here_bases =~= there_bases);
        assert(here_quals =~= there_quals);
    }

    /// A record's window, rewritten locator and output text are the same in
    /// any text that holds the record's bytes, wherever it holds them.
    pub proof fn lemma_output_moved(
        &self,
        text: Seq<u8>,
        other: Seq<u8>,
        delta: int,
        config: &TrimConfig,
    )
        requires
            self.wf(),
            self.end <= text.len(),
            0 <= self.name_start + delta,
            self.end + delta <= other.len() <= usize::MAX,
            forall|j: int| self.name_start <= j < self.end ==>
                text[j] == #[trigger] other[j + delta],
        ensures
            self.moved(delta).wf(),
            self.moved(delta).decided(other, config) == self.decided(text, config).moved(delta),
            self.moved(delta).processed(other, config) == self.processed(text, config).moved(delta),
            self.moved(delta).decided(other, config).trimmed_body(other) == self.decided(
                text,
                config,
            ).trimmed_body(text),
            self.moved(delta).output(other, config) == self.output(text, config),
    {
        self.lemma_lines_moved(text, other, delta);
        config.lemma_window_bounds(self.bases(text), self.quals(text));
        self.decided(text, config).lemma_body_moved(text, other, delta);
    }

    /// The buffer after the record is rewritten in place, byte by byte:
    /// within the rewritten lines the trimmed body, elsewhere what was
    /// there.
    pub proof fn lemma_compacted_byte(&self, text: Seq<u8>, j: int)
        requires
            self.wf(),
            self.end <= text.len(),
            0 <= j < text.len(),
        ensures
            self.compacted_bytes(text).len() == text.len(),
            self.compacted_bytes(text)[j] == if self.seq_start <= j < self.seq_start + 2
                * self.kept() + 4 {
                self.body_byte(text, j - self.seq_start)
            } else {
                text[j]
            },
    {
        if self.seq_start <= j < self.seq_start + 2 * self.kept() + 4 {
            self.lemma_body_byte(text, j - self.seq_start);
        } else {
            self.lemma_body_byte(text, 0);
        }
    }

    /// Rewriting a rewritten record again changes neither its locator nor
    /// a byte of the buffer.
    pub proof fn lemma_compacted_again(&self, text: Seq<u8>)
        requires
            self.wf(),
            self.end <= text.len(),
        ensures
            self.compacted().wf(),
            self.compacted().end <= text.len(),
            self.compacted().compacted() == self.compacted(),
            self.compacted().compacted_bytes(self.compacted_bytes(text))
                == self.compacted_bytes(text),
    {
        let once = self.compacted();
        let now = self.compacted_bytes(text);
        self.lemma_compacted_byte(text, 0);
        assert forall|j: int| 0 <= j < now.len() implies #[trigger] now[j] == if once.seq_start
            <= j < once.seq_start + 2 * once.kept() + 4 {
            once.body_byte(now, j - once.seq_start)
        } else {
            now[j]
        } by {
            let kept = once.kept();
            let i = j - once.seq_start;
            if 0 <= i < kept {
                assert(now[once.seq_start + once.start + i] == now[j]);
            } else if kept + 3 <= i < 2 * kept + 3 {
                assert(now[once.qual_start + once.start + (i - kept - 3)] == now[j]);
            } else if 0 <= i < 2 * kept + 4 {
                self.lemma_compacted_byte(text, j);
            }
        }
        assert(once.is_rewritten(now, now));
        once.lemma_rewritten(now, now);
    }

    /// The locator of a record within its own span of bytes: every offset
    /// is less by the record's start, and rewriting it gives the rewritten
    /// locator, less by the record's start as well.
    pub proof fn lemma_moved_to_span(&self)
        requires
            self.wf(),
            self.end <= usize::MAX,
        ensures
            ({
                let base = self.name_start as int;
                let own = self.moved(-base);
                &&& own.wf()
                &&& own.name_start == 0
                &&& own.seq_start == self.seq_start - base
                &&& own.plus_start == self.plus_start - base
                &&& own.qual_start == self.qual_start - base
                &&& own.end == self.end - base
                &&& own.start == self.start
                &&& own.stop == self.stop
                &&& own.compacted().moved(base) == self.compacted()
            }),
    {
    }

    /// Rewriting a record within its own span of bytes, apart from the
    /// buffer that the span is part of, gives what rewriting it within the
    /// buffer gives.
    pub proof fn lemma_compacted_in_span(&self, text: Seq<u8>)
        requires
            self.wf(),
            self.end <= text.len() <= usize::MAX,
        ensures
            ({
                let base = self.name_start as int;
                let span = text.subrange(base, self.end as int);
                let own = self.moved(-base);
                &&& own.wf()
                &&& own.end == span.len()
                &&& own.compacted().moved(base) == self.compacted()
                &&& self.compacted_bytes(text) == text.subrange(0, base) + own.compacted_bytes(span)
                    + text.subrange(self.end as int, text.len() as int)
            }),
    {
        let base = self.name_start as int;
        let span = text.subrange(base, self.end as int);
        let own = self.moved(-base);
        self.lemma_moved_to_span();
        let part = own.compacted_bytes(span);
        let joined = text.subrange(0, base) + part + text.subrange(
            self.end as int,
            text.len() as int,
        );
        own.lemma_compacted_byte(span, 0);
        assert forall|j: int| 0 <= j < text.len() implies #[trigger] joined[j] == if base <= j
            < self.end {
            part[j - base]
        } else {
            text[j]
        } by {}
        assert forall|j: int| base <= j < self.end implies #[trigger] part[j - base]
            == if self.seq_start <= j < self.seq_start + 2 * self.kept() + 4 {
            self.body_byte(text, j - self.seq_start)
        } else {
            text[j]
        } by {
            own.lemma_compacted_byte(span, j - base);
            self.lemma_body_in_span(text, j - self.seq_start);
        }
        assert(self.is_rewritten(text, joined));
        self.lemma_rewritten(text, joined);
    }

    /// A byte of the trimmed body is the same within the record's own span
    /// of bytes as within the buffer.
    proof fn lemma_body_in_span(&self, text: Seq<u8>, i: int)
        requires
            self.wf(),
            self.end <= text.len() <= usize::MAX,
        ensures
            0 <= i < 2 * self.kept() + 4 ==> self.moved(-(self.name_start as int)).body_byte(
                text.subrange(self.name_start as int, self.end as int),
                i,
            ) == self.body_byte(text, i),
    {
        self.lemma_moved_to_span();
    }

    /// Trimming a record within its own span of bytes, apart from the
    /// buffer that the span is part of, makes of it what trimming it within
    /// the buffer does: the same locator, and the same bytes in the span,
    /// with the rest of the buffer as it was.
    pub proof fn lemma_span_is_record(&self, text: Seq<u8>, config: &TrimConfig)
        requires
            self.wf(),
            self.end <= text.len() <= usize::MAX,
        ensures
            ({
                let base = self.name_start as int;
                let span = text.subrange(base, self.end as int);
                let own = self.moved(-base);
                &&& own.wf()
                &&& own.end == span.len()
                &&& own.processed(span, config).moved(base) == self.processed(text, config)
                &&& self.processed_bytes(text, config) == text.subrange(0, base)
                    + own.processed_bytes(span, config) + text.subrange(
                    self.end as int,
                    text.len() as int,
                )
            }),
    {
        let base = self.name_start as int;
        let span = text.subrange(base, self.end as int);
        let own = self.moved(-base);
        assert forall|j: int| self.name_start <= j < self.end implies text[j] == #[trigger] span[j
            + (-base)] by {}
        self.lemma_output_moved(text, span, -base, config);
        config.lemma_window_bounds(self.bases(text), self.quals(text));
        let here = self.decided(text, config);
        assert(own.decided(span, config) == here.moved(-base));
        here.lemma_compacted_in_span(text);
    }

    /// What trimming a record in place comes to: the locator stays well
    /// formed, keeps its start and ends no later; the record's span holds
    /// the record's output text; every byte that is not part of the
    /// rewritten lines is as before.
    pub proof fn lemma_processed(&self, text: Seq<u8>, config: &TrimConfig)
        requires
            self.wf(),
            self.end <= text.len(),
        ensures
            self.processed(text, config).wf(),
            self.processed(text, config).name_start == self.name_start,
            self.processed(text, config).seq_start == self.seq_start,
            self.processed(text, config).end <= self.end,
            self.processed_bytes(text, config).len() == text.len(),
            self.processed_bytes(text, config).subrange(
                self.name_start as int,
                self.processed(text, config).end as int,
            ) == self.output(text, config),
            forall|j: int|
                0 <= j < text.len() && !(self.seq_start <= j < self.processed(text, config).end)
                    ==> #[trigger] self.processed_bytes(text, config)[j] == text[j],
    {
        config.lemma_window_bounds(self.bases(text), self.quals(text));
        let decided = self.decided(text, config);
        let once = decided.compacted();
        let now = decided.compacted_bytes(text);
        decided.lemma_compacted_byte(text, 0);
        assert forall|j: int|
            0 <= j < text.len() && !(self.seq_start <= j < once.end) implies #[trigger] now[j]
            == text[j] by {
            decided.lemma_compacted_byte(text, j);
        }
        let out = self.output(text, config);
        let held = now.subrange(self.name_start as int, once.end as int);
        decided.lemma_body_byte(text, 0);
        assert forall|i: int| 0 <= i < out.len() implies held[i] == out[i] by {
            decided.lemma_compacted_byte(text, self.name_start + i);
            if i >= self.seq_start - self.name_start {
                decided.lemma_body_byte(text, i - (self.seq_start - self.name_start));
            }
        }
        assert(held =~= out);
    }

    /// Trimming a record in place, byte by byte: in a buffer that holds
    /// the record's bytes as `text` does, the record's span ends up as it
    /// does in `text`, and every other byte stays.
    pub proof fn lemma_processed_with(&self, text: Seq<u8>, other: Seq<u8>, config: &TrimConfig)
        requires
            self.wf(),
            self.end <= text.len(),
            other.len() == text.len(),
            forall|j: int| self.name_start <= j < self.end ==> text[j] == other[j],
        ensures
            self.processed(other, config) == self.processed(text, config),
            self.processed_bytes(other, config).len() == other.len(),
            forall|j: int|
                0 <= j < other.len() ==> #[trigger] self.processed_bytes(other, config)[j]
                    == if self.name_start <= j < self.end {
                    self.processed_bytes(text, config)[j]
                } else {
                    other[j]
                },
    {
        self.lemma_depends_on_span(text, other, config);
        config.lemma_window_bounds(self.bases(text), self.quals(text));
        let decided = self.decided(text, config);
        decided.lemma_compacted_byte(other, 0);
        assert forall|j: int|
            0 <= j < other.len() implies #[trigger] decided.compacted_bytes(other)[j]
            == if self.name_start <= j < self.end {
            decided.compacted_bytes(text)[j]
        } else {
            other[j]
        } by {
            decided.lemma_compacted_byte(other, j);
            decided.lemma_compacted_byte(text, j);
        }
    }

    /// What trimming makes of a record depends on no byte outside the
    /// record: two buffers that agree on the record's span give the same
    /// window, the same rewritten locator and the same output text.
    pub proof fn lemma_depends_on_span(
        &self,
        text: Seq<u8>,
        other: Seq<u8>,
        config: &TrimConfig,
    )
        requires
            self.wf(),
            self.end <= text.len(),
            self.end <= other.len(),
            forall|j: int| self.name_start <= j < self.end ==> text[j] == other[j],
        ensures
            self.decided(text, config) == self.decided(other, config),
            self.processed(text, config) == self.processed(other, config),
            self.output(text, config) == self.output(other, config),
    {
        assert(self.bases(text) =~= self.bases(other));
        assert(self.quals(text) =~= self.quals(other));
        assert(self.header(text) =~= self.header(other));
        let decided = self.decided(text, config);
        assert(0 <= decided.start <= decided.stop <= self.seq_len()) by {
            config.lemma_window_bounds(self.bases(text), self.quals(text));
        }
        assert(decided.trimmed_body(text) =~= decided.trimmed_body(other));
    }

    /// Whether the locator is well formed and lies within a buffer of
    /// `len` bytes.
    pub fn fits(&self, len: usize) -> (ok: bool)
        ensures
            ok <==> self.wf() && self.end <= len,
    {
        self.name_start < self.seq_start && self.seq_start < self.plus_start && self.plus_start
            < self.qual_start && self.qual_start - self.plus_start >= 2 && self.end <= len
            && self.qual_start < self.end && self.end - self.qual_start > self.plus_start
            - self.seq_start - 1 && self.start <= self.stop && self.stop <= self.plus_start
            - self.seq_start - 1
    }

    /// Trims one record within its own span of bytes: `span` holds the
    /// record and nothing else, while the locator keeps speaking of the
    /// buffer that the span is part of.
    pub fn process_span(&mut self, span: &mut [u8], config: &TrimConfig)
        requires
            old(self).wf(),
            old(span)@.len() == old(self).end - old(self).name_start,
            config.wf(),
        ensures
            final(self).wf(),
            final(self).name_start == old(self).name_start,
            final(self).end <= old(self).end,
            final(span)@.len() == old(span)@.len(),
            *final(self) == old(self).moved(-(old(self).name_start as int)).processed(
                old(span)@,
                config,
            ).moved(old(self).name_start as int),
            final(span)@ == old(self).moved(-(old(self).name_start as int)).processed_bytes(
                old(span)@,
                config,
            ),
    {
        let base = self.name_start;
        let mut own = RecordLocator {
            name_start: 0,
            seq_start: self.seq_start - base,
            plus_start: self.plus_start - base,
            qual_start: self.qual_start - base,
            end: self.end - base,
            start: self.start,
            stop: self.stop,
        };
        own.process(span, config);
        self.seq_start = own.seq_start + base;
        self.plus_start = own.plus_start + base;
        self.qual_start = own.qual_start + base;
        self.end = own.end + base;
        self.start = own.start;
        self.stop = own.stop;
    }

    /// The locator with the window that `config` decides for the record in
    /// `buf`.
    pub open spec fn decided(&self, buf: Seq<u8>, config: &TrimConfig) -> RecordLocator {
        self.with_window(
            config.start_spec(self.bases(buf), self.quals(buf)),
            config.stop_spec(self.bases(buf), self.quals(buf)),
        )
    }

    /// The locator of the record after trimming.
    pub open spec fn processed(&self, buf: Seq<u8>, config: &TrimConfig) -> RecordLocator {
        self.decided(buf, config).compacted()
    }

    /// The buffer after the record is trimmed in place.
    pub open spec fn processed_bytes(&self, buf: Seq<u8>, config: &TrimConfig) -> Seq<u8> {
        self.decided(buf, config).compacted_bytes(buf)
    }
}

} // verus!
