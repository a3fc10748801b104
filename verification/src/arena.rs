//! The byte arena that input is streamed through, with the scanner that
//! locates the complete records in it.

use vstd::prelude::*;
use crate::error::TrimError;
use crate::record::{move_down, NEWLINE, RecordLocator, SENTINEL};
use crate::scan::{
    has_line, has_record, is_chain, is_line_end, is_link, is_scanned_at, is_scanned_run,
    lemma_line_end_is, line_end, locator_of, no_newline, record_lines, record_start,
    shape_fault,
};

verus! {

/// A byte buffer of fixed capacity, of which the first `filled` bytes hold
/// input and the first `cursor` of those are consumed.
pub struct Arena {
    pub buf: Vec<u8>,
    pub cursor: usize,
    pub filled: usize,
}

impl Arena {
    /// The consumed bytes are among the filled ones, and those within the
    /// capacity.
    pub open spec fn wf(&self) -> bool {
        self.cursor <= self.filled <= self.buf@.len()
    }

    /// The bytes that are filled and not consumed.
    pub open spec fn pending(&self) -> Seq<u8> {
        self.buf@.subrange(self.cursor as int, self.filled as int)
    }

    /// An empty arena of `capacity` bytes, all of them zero.
    pub fn new(capacity: usize) -> (arena: Arena)
        ensures
            arena.wf(),
            arena.buf@.len() == capacity,
            arena.cursor == 0,
            arena.filled == 0,
            forall|j: int| 0 <= j < capacity ==> arena.buf@[j] == 0,
    {
        Arena { buf: vec![0u8; capacity], cursor: 0, filled: 0 }
    }

    /// The arena's capacity in bytes.
    pub fn capacity(&self) -> (capacity: usize)
        ensures
            capacity == self.buf@.len(),
    {
        self.buf.len()
    }

    /// Number of bytes that a fill can still take.
    pub fn spare(&self) -> (spare: usize)
        requires
            self.wf(),
        ensures
            spare == self.buf@.len() - self.filled,
    {
        self.buf.len() - self.filled
    }

    /// Whether the arena is filled to capacity. A fill that leaves it short
    /// of that has exhausted its source.
    pub fn is_full(&self) -> (full: bool)
        ensures
            full <==> self.filled == self.buf@.len(),
    {
        self.filled == self.buf.len()
    }

    /// Moves the bytes that are not yet consumed to the front of the arena
    /// and resets the cursor. Bytes from the new `filled` on stay as they
    /// were.
    pub fn shift(&mut self)
        requires
            old(self).wf(),
        ensures
            final(self).wf(),
            final(self).cursor == 0,
            final(self).filled == old(self).filled - old(self).cursor,
            final(self).buf@.len() == old(self).buf@.len(),
            final(self).pending() == old(self).pending(),
            forall|j: int|
                final(self).filled <= j < old(self).buf@.len() ==>
                    final(self).buf@[j] == old(self).buf@[j],
    {
        let ghost before = self.buf@;
        let count = self.filled - self.cursor;
        move_down(self.buf.as_mut_slice(), self.cursor, 0, count);
        self.filled = count;
        self.cursor = 0;
        assert(self.pending() =~= before.subrange(old(self).cursor as int, old(self).filled as int));
    }

    /// Makes room for the next fill: moves the pending bytes to the front
    /// and returns the number of bytes that the fill can take.
    ///
    /// An arena that is full of pending bytes has no room to make: it holds
    /// no complete record and can take in no more of the one it holds part
    /// of. That is the fault `RecordTooLarge`.
    pub fn make_room(&mut self) -> (room: Result<usize, TrimError>)
        requires
            old(self).wf(),
        ensures
            final(self).wf(),
            final(self).cursor == 0,
            final(self).filled == old(self).filled - old(self).cursor,
            final(self).buf@.len() == old(self).buf@.len(),
            final(self).pending() == old(self).pending(),
            forall|j: int|
                final(self).filled <= j < old(self).buf@.len() ==>
                    final(self).buf@[j] == old(self).buf@[j],
            match room {
                Ok(spare) => spare > 0 && spare == final(self).buf@.len() - final(self).filled,
                Err(fault) => {
                    &&& fault == TrimError::RecordTooLarge
                    &&& final(self).filled == final(self).buf@.len()
                },
            },
    {
        self.shift();
        let spare = self.buf.len() - self.filled;
        if spare == 0 {
            Err(TrimError::RecordTooLarge)
        } else {
            Ok(spare)
        }
    }

    /// Scans forward from `offset` for a line terminator among the filled
    /// bytes. Returns the offset just past the first one, or `None` when
    /// there is none.
    pub fn next_line(&self, offset: usize) -> (next: Option<usize>)
        requires
            self.wf(),
        ensures
            match next {
                Some(p) => is_line_end(self.buf@, offset as int, self.filled as int, p as int)
                    && p as int == line_end(self.buf@, offset as int, self.filled as int),
                None => !has_line(self.buf@, offset as int, self.filled as int),
            },
    {
        let mut i: usize = offset;
        while i < self.filled
            invariant
                self.wf(),
                offset <= i,
                no_newline(self.buf@, offset as int, i as int),
            decreases self.filled - i,
        {
            if self.buf[i] == NEWLINE {
                proof {
                    lemma_line_end_is(self.buf@, offset as int, self.filled as int, i + 1);
                }
                return Some(i + 1);
            }
            i = i + 1;
        }
        proof {
            assert forall|p: int| !is_line_end(self.buf@, offset as int, self.filled as int, p) by {
                if is_line_end(self.buf@, offset as int, self.filled as int, p) {
                    assert(self.buf@[p - 1] != NEWLINE);
                }
            }
        }
        None
    }

    /// Looks for one record at the cursor: four lines, each with its
    /// terminator among the filled bytes.
    ///
    /// With all four found and the record sound, the cursor moves past the
    /// record and its locator is returned, the window keeping every base.
    /// With a line missing, `Ok(None)` says that more input is needed. A
    /// record that is complete but unsound is a fault. In both of these
    /// cases the cursor stays.
    pub fn get_next_record(&mut self) -> (found: Result<Option<RecordLocator>, TrimError>)
        requires
            old(self).wf(),
        ensures
            final(self).wf(),
            final(self).buf@ == old(self).buf@,
            final(self).filled == old(self).filled,
            match found {
                Ok(None) => {
                    &&& !has_record(old(self).buf@, old(self).cursor as int, old(self).filled as int)
                    &&& final(self).cursor == old(self).cursor
                },
                Ok(Some(rec)) => {
                    &&& has_record(old(self).buf@, old(self).cursor as int, old(self).filled as int)
                    &&& shape_fault(
                        old(self).buf@,
                        old(self).cursor as int,
                        record_lines(
                            old(self).buf@,
                            old(self).cursor as int,
                            old(self).filled as int,
                        ),
                    ) is None
                    &&& rec == locator_of(
                        old(self).cursor as int,
                        record_lines(
                            old(self).buf@,
                            old(self).cursor as int,
                            old(self).filled as int,
                        ),
                    )
                    &&& rec.wf()
                    &&& rec.name_start == old(self).cursor
                    &&& rec.end <= old(self).filled
                    &&& final(self).cursor == rec.end
                },
                Err(fault) => {
                    &&& has_record(old(self).buf@, old(self).cursor as int, old(self).filled as int)
                    &&& shape_fault(
                        old(self).buf@,
                        old(self).cursor as int,
                        record_lines(
                            old(self).buf@,
                            old(self).cursor as int,
                            old(self).filled as int,
                        ),
                    ) == Some(fault)
                    &&& final(self).cursor == old(self).cursor
                },
            },
    {
        let n = self.cursor;
        let r = match self.next_line(n) {
            Some(p) => p,
            None => {
                return Ok(None);
            },
        };
        let o = match self.next_line(r) {
            Some(p) => p,
            None => {
                return Ok(None);
            },
        };
        let q = match self.next_line(o) {
            Some(p) => p,
            None => {
                return Ok(None);
            },
        };
        let e = match self.next_line(q) {
            Some(p) => p,
            None => {
                return Ok(None);
            },
        };
        if self.buf[n] != SENTINEL {
            return Err(TrimError::MissingSentinel);
        }
        if q - o < 2 {
            return Err(TrimError::EmptySeparator);
        }
        if e - q < o - r {
            return Err(TrimError::ShortQuality);
        }
        self.cursor = e;
        Ok(
            Some(
                RecordLocator {
                    name_start: n,
                    seq_start: r,
                    plus_start: o,
                    qual_start: q,
                    end: e,
                    start: 0,
                    stop: o - r - 1,
                },
            ),
        )
    }

    /// Collects into `batch` the records that are complete in the arena,
    /// from the cursor on and in the order in which they lie, and moves the
    /// cursor past them. What `batch` held before is dropped.
    ///
    /// The scan ends at the first place where no complete record starts, or
    /// with the fault of the first unsound record; `batch` then holds the
    /// records before that one.
    pub fn scan_batch(&mut self, batch: &mut Vec<RecordLocator>) -> (scanned: Result<(), TrimError>)
        requires
            old(self).wf(),
        ensures
            final(self).wf(),
            final(self).buf@ == old(self).buf@,
            final(self).filled == old(self).filled,
            is_scanned_run(
                old(self).buf@,
                old(self).cursor as int,
                old(self).filled as int,
                final(batch)@,
            ),
            is_chain(final(batch)@, old(self).cursor as int, old(self).filled as int),
            final(self).cursor == record_start(
                final(batch)@,
                old(self).cursor as int,
                final(batch)@.len() as int,
            ),
            match scanned {
                Ok(()) => !has_record(
                    old(self).buf@,
                    final(self).cursor as int,
                    old(self).filled as int,
                ),
                Err(fault) => {
                    &&& has_record(old(self).buf@, final(self).cursor as int, old(self).filled as int)
                    &&& shape_fault(
                        old(self).buf@,
                        final(self).cursor as int,
                        record_lines(
                            old(self).buf@,
                            final(self).cursor as int,
                            old(self).filled as int,
                        ),
                    ) == Some(fault)
                },
            },
    {
        batch.clear();
        let ghost text = self.buf@;
        let ghost from = self.cursor as int;
        let ghost limit = self.filled as int;
        loop
            invariant
                self.wf(),
                self.buf@ == text,
                self.filled == limit,
                text == old(self).buf@,
                from == old(self).cursor,
                limit == old(self).filled,
                is_scanned_run(text, from, limit, batch@),
                is_chain(batch@, from, limit),
                self.cursor == record_start(batch@, from, batch@.len() as int),
            decreases self.filled - self.cursor,
        {
            let ghost so_far = batch@;
            match self.get_next_record() {
                Ok(Some(rec)) => {
                    batch.push(rec);
                    proof {
                        let k = so_far.len() as int;
                        assert forall|i: int| 0 <= i < batch@.len()
                            implies #[trigger] is_scanned_at(
                            text,
                            from,
                            limit,
                            batch@,
                            i,
                        ) by {
                            if i < k {
                                assert(is_scanned_at(text, from, limit, so_far, i));
                                assert(record_start(batch@, from, i)
                                    == record_start(so_far, from, i));
                            } else {
                                assert(record_start(batch@, from, i)
                                    == record_start(so_far, from, k));
                            }
                        }
                        assert forall|i: int| 0 <= i < batch@.len() implies #[trigger] is_link(
                            batch@,
                            from,
                            limit,
                            i,
                        ) by {
                            if i < k {
                                assert(is_link(so_far, from, limit, i));
                                assert(record_start(batch@, from, i)
                                    == record_start(so_far, from, i));
                            } else {
                                assert(record_start(batch@, from, i)
                                    == record_start(so_far, from, k));
                            }
                        }
                    }
                },
                Ok(None) => {
                    return Ok(());
                },
                Err(fault) => {
                    return Err(fault);
                },
            }
        }
    }

    /// The part of the arena that a fill writes to: the bytes from `filled`
    /// to the capacity.
    pub fn spare_mut(&mut self) -> (spare: &mut [u8])
        requires
            old(self).wf(),
        ensures
            spare@ == old(self).buf@.subrange(old(self).filled as int, old(self).buf@.len() as int),
            final(self).buf@ == old(self).buf@.subrange(0, old(self).filled as int) + final(spare)@,
            final(self).cursor == old(self).cursor,
            final(self).filled == old(self).filled,
    {
        let filled = self.filled;
        let (_, tail) = self.buf.as_mut_slice().split_at_mut(filled);
        tail
    }

    /// Counts `count` more bytes as filled, after a fill wrote them to the
    /// spare part. A count beyond the spare part is not taken.
    pub fn commit(&mut self, count: usize) -> (taken: bool)
        requires
            old(self).wf(),
        ensures
            final(self).wf(),
            final(self).buf@ == old(self).buf@,
            final(self).cursor == old(self).cursor,
            taken <==> count <= old(self).buf@.len() - old(self).filled,
            final(self).filled == if taken {
                old(self).filled + count
            } else {
                old(self).filled as int
            },
    {
        if count > self.buf.len() - self.filled {
            return false;
        }
        self.filled = self.filled + count;
        true
    }

    /// Fills the spare part from the front of `src`, as far as either
    /// reaches, and returns the number of bytes taken.
    pub fn fill_from(&mut self, src: &[u8]) -> (count: usize)
        requires
            old(self).wf(),
        ensures
            final(self).wf(),
            final(self).cursor == old(self).cursor,
            final(self).buf@.len() == old(self).buf@.len(),
            count == if src@.len() <= old(self).buf@.len() - old(self).filled {
                src@.len() as int
            } else {
                old(self).buf@.len() - old(self).filled
            },
            final(self).filled == old(self).filled + count,
            forall|j: int| 0 <= j < old(self).filled ==> final(self).buf@[j] == old(self).buf@[j],
            forall|j: int| 0 <= j < count ==> final(self).buf@[old(self).filled + j] == src@[j],
            forall|j: int|
                final(self).filled <= j < old(self).buf@.len() ==>
                    final(self).buf@[j] == old(self).buf@[j],
    {
        let room = self.buf.len() - self.filled;
        let count = if src.len() <= room {
            src.len()
        } else {
            room
        };
        let base = self.filled;
        let ghost before = self.buf@;
        let mut j: usize = 0;
        while j < count
            invariant
                base + count <= self.buf.len(),
                count <= src.len(),
                self.cursor == old(self).cursor,
                self.filled == base,
                self.buf@.len() == before.len(),
                0 <= j <= count,
                forall|k: int| 0 <= k < base ==> self.buf@[k] == before[k],
                forall|k: int| 0 <= k < j ==> self.buf@[base + k] == src@[k],
                forall|k: int| base + j <= k < before.len() ==> self.buf@[k] == before[k],
            decreases count - j,
        {
            self.buf[base + j] = src[j];
            j = j + 1;
        }
        self.filled = base + count;
        count
    }

    /// The filled part of the arena, for rewriting records in place.
    pub fn filled_mut(&mut self) -> (head: &mut [u8])
        requires
            old(self).wf(),
        ensures
            head@ == old(self).buf@.subrange(0, old(self).filled as int),
            final(self).buf@ == final(head)@ + old(self).buf@.subrange(
                old(self).filled as int,
                old(self).buf@.len() as int,
            ),
            final(self).cursor == old(self).cursor,
            final(self).filled == old(self).filled,
    {
        let filled = self.filled;
        let (head, _) = self.buf.as_mut_slice().split_at_mut(filled);
        head
    }

    /// The bytes of one record, from its header to the end of its last
    /// line.
    pub fn record_bytes(&self, rec: &RecordLocator) -> (bytes: &[u8])
        requires
            rec.name_start <= rec.end <= self.buf@.len(),
        ensures
            bytes@ == self.buf@.subrange(rec.name_start as int, rec.end as int),
    {
        vstd::slice::slice_subrange(self.buf.as_slice(), rec.name_start, rec.end)
    }
}

} // verus!
