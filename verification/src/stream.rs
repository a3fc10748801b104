//! Trimming a whole stream of records through an arena of fixed capacity.

use vstd::prelude::*;
use vstd::slice::slice_subrange;
use crate::arena::Arena;
use crate::scan::{
    has_record, holds_moved, is_chain, is_link, is_scanned_at, is_scanned_run,
    lemma_holds_moved_back, lemma_holds_moved_part, lemma_holds_moved_twice,
    lemma_no_record_moved, lemma_record_found, lemma_record_limit_down, lemma_record_limit_up,
    lemma_record_moved, locator_of, record_lines, record_start, shape_fault,
};
use crate::engine::{
    batch_output, batch_text, emit_batch, is_trimmed_at, lemma_trimmed_text,
    process_batch_in_parallel, run_start,
};
use crate::error::TrimError;
use crate::record::RecordLocator;
use crate::window::TrimConfig;

verus! {

/// `head` put in front of what `rest` yields, where it yields anything.
pub open spec fn prepend(head: Seq<u8>, rest: Result<Seq<u8>, TrimError>) -> Result<
    Seq<u8>,
    TrimError,
> {
    match rest {
        Ok(tail) => Ok(head + tail),
        Err(fault) => Err(fault),
    }
}

/// What trimming makes of the records of `input` from `from` on, through an
/// arena of `capacity` bytes.
///
/// The records are taken one after the other; each contributes its output
/// text. The stream ends where no complete record is left: a last
/// incomplete one is dropped. A complete record that is unsound is a fault.
/// A record of more than `capacity` bytes, or an incomplete rest of at
/// least `capacity` bytes, cannot pass through the arena.
#[verifier::opaque]
pub open spec fn trimmed_stream(
    input: Seq<u8>,
    from: int,
    capacity: int,
    config: &TrimConfig,
) -> Result<Seq<u8>, TrimError>
    decreases input.len() - from,
    via trimmed_stream_decreases
{
    let limit = input.len() as int;
    if !has_record(input, from, limit) {
        if limit - from >= capacity {
            Err(TrimError::RecordTooLarge)
        } else {
            Ok(Seq::empty())
        }
    } else {
        let lines = record_lines(input, from, limit);
        if lines.end - from > capacity {
            Err(TrimError::RecordTooLarge)
        } else {
            match shape_fault(input, from, lines) {
                Some(fault) => Err(fault),
                None => prepend(
                    locator_of(from, lines).output(input, config),
                    trimmed_stream(input, lines.end, capacity, config),
                ),
            }
        }
    }
}

/// A record ends behind its start and within the input, so the stream
/// behind it is shorter.
#[via_fn]
proof fn trimmed_stream_decreases(input: Seq<u8>, from: int, capacity: int, config: &TrimConfig) {
    if has_record(input, from, input.len() as int) {
        lemma_record_found(input, from, input.len() as int);
    }
}

/// Putting nothing in front changes nothing.
proof fn lemma_prepend_nothing(rest: Result<Seq<u8>, TrimError>)
    ensures
        prepend(Seq::empty(), rest) == rest,
{
    if let Ok(tail) = rest {
        assert(Seq::<u8>::empty() + tail =~= tail);
    }
}

/// Putting two pieces in front, one after the other, is putting their
/// concatenation in front.
proof fn lemma_prepend_twice(a: Seq<u8>, b: Seq<u8>, rest: Result<Seq<u8>, TrimError>)
    ensures
        prepend(a, prepend(b, rest)) == prepend(a + b, rest),
{
    if let Ok(tail) = rest {
        assert(a + (b + tail) =~= (a + b) + tail);
    }
}

/// A sound record that fits the arena contributes its output text, and the
/// stream goes on behind it.
pub proof fn lemma_stream_step(input: Seq<u8>, from: int, capacity: int, config: &TrimConfig)
    requires
        has_record(input, from, input.len() as int),
        record_lines(input, from, input.len() as int).end - from <= capacity,
        shape_fault(input, from, record_lines(input, from, input.len() as int)) is None,
    ensures
        trimmed_stream(input, from, capacity, config) == prepend(
            locator_of(from, record_lines(input, from, input.len() as int)).output(input, config),
            trimmed_stream(
                input,
                record_lines(input, from, input.len() as int).end,
                capacity,
                config,
            ),
        ),
{
    reveal(trimmed_stream);
    lemma_record_found(input, from, input.len() as int);
}

/// A fault in a complete record that fits the arena is the fault of the
/// stream from there on.
pub proof fn lemma_stream_fault(
    input: Seq<u8>,
    from: int,
    capacity: int,
    config: &TrimConfig,
    fault: TrimError,
)
    requires
        has_record(input, from, input.len() as int),
        record_lines(input, from, input.len() as int).end - from <= capacity,
        shape_fault(input, from, record_lines(input, from, input.len() as int)) == Some(fault),
    ensures
        trimmed_stream(input, from, capacity, config) == Err::<Seq<u8>, TrimError>(fault),
{
    reveal(trimmed_stream);
}

/// A stream that passes through the arena and has a record at `from` has
/// a sound record there that fits the arena, and passes through the arena
/// behind that record as well.
pub proof fn lemma_stream_goes_on(input: Seq<u8>, from: int, capacity: int, config: &TrimConfig)
    requires
        trimmed_stream(input, from, capacity, config) is Ok,
        has_record(input, from, input.len() as int),
    ensures
        record_lines(input, from, input.len() as int).end - from <= capacity,
        shape_fault(input, from, record_lines(input, from, input.len() as int)) is None,
        trimmed_stream(
            input,
            record_lines(input, from, input.len() as int).end,
            capacity,
            config,
        ) is Ok,
{
    reveal(trimmed_stream);
    lemma_record_found(input, from, input.len() as int);
}

/// A stream that passes through the arena and has no record at `from` ends
/// there: nothing comes out, and less is left than the arena holds.
pub proof fn lemma_stream_ends(input: Seq<u8>, from: int, capacity: int, config: &TrimConfig)
    requires
        !has_record(input, from, input.len() as int),
    ensures
        trimmed_stream(input, from, capacity, config) == if input.len() - from < capacity {
            Ok::<Seq<u8>, TrimError>(Seq::empty())
        } else {
            Err::<Seq<u8>, TrimError>(TrimError::RecordTooLarge)
        },
{
    reveal(trimmed_stream);
}

/// The capacity of the arena decides only whether a stream passes through
/// it: two capacities that both let the stream pass give the same output.
pub proof fn lemma_capacity_is_immaterial(
    input: Seq<u8>,
    from: int,
    small: int,
    large: int,
    config: &TrimConfig,
)
    requires
        trimmed_stream(input, from, small, config) is Ok,
        trimmed_stream(input, from, large, config) is Ok,
    ensures
        trimmed_stream(input, from, small, config) == trimmed_stream(input, from, large, config),
    decreases input.len() - from,
{
    reveal(trimmed_stream);
    let limit = input.len() as int;
    if has_record(input, from, limit) {
        let lines = record_lines(input, from, limit);
        if from < lines.end <= limit {
            lemma_capacity_is_immaterial(input, lines.end, small, large, config);
        }
    }
}

/// No record of a chain starts before the chain does or ends beyond its
/// limit.
proof fn lemma_chain_from(recs: Seq<RecordLocator>, from: int, limit: int, k: int)
    requires
        is_chain(recs, from, limit),
        from <= limit,
        0 <= k <= recs.len(),
    ensures
        from <= record_start(recs, from, k) <= limit,
    decreases k,
{
    if k > 0 {
        lemma_chain_from(recs, from, limit, k - 1);
        assert(is_link(recs, from, limit, k - 1));
    }
}

/// A sound record in a stretch of an arena is the stream's record at that
/// place: there the stream yields the record's output text, followed by
/// what it yields behind the record.
proof fn lemma_record_in_stream(
    text: Seq<u8>,
    from: int,
    limit: int,
    input: Seq<u8>,
    delta: int,
    at: int,
    rec: RecordLocator,
    config: &TrimConfig,
    capacity: int,
)
    requires
        holds_moved(text, from, limit, input, delta),
        text.len() <= usize::MAX,
        input.len() <= usize::MAX,
        limit - from <= capacity,
        from <= at,
        has_record(text, at, limit),
        shape_fault(text, at, record_lines(text, at, limit)) is None,
        rec == locator_of(at, record_lines(text, at, limit)),
        rec.wf(),
        rec.name_start == at,
        rec.end <= limit,
    ensures
        trimmed_stream(input, at + delta, capacity, config) == prepend(
            rec.output(text, config),
            trimmed_stream(input, rec.end + delta, capacity, config),
        ),
{
    let lines = record_lines(text, at, limit);
    lemma_record_found(text, at, limit);
    lemma_record_moved(text, from, limit, input, delta, at);
    assert(0 <= from + delta && limit + delta <= input.len()) by {
        reveal(holds_moved);
    }
    lemma_record_limit_up(input, at + delta, limit + delta, input.len() as int);
    lemma_stream_step(input, at + delta, capacity, config);
    assert(locator_of(at + delta, lines.moved(delta)) == rec.moved(delta));
    assert forall|j: int| rec.name_start <= j < rec.end implies text[j] == #[trigger] input[j
        + delta] by {
        reveal(holds_moved);
    }
    rec.lemma_output_moved(text, input, delta, config);
}

/// A fault found in a stretch of an arena is the stream's fault at that
/// place.
proof fn lemma_fault_in_stream(
    text: Seq<u8>,
    from: int,
    limit: int,
    input: Seq<u8>,
    delta: int,
    at: int,
    fault: TrimError,
    config: &TrimConfig,
    capacity: int,
)
    requires
        holds_moved(text, from, limit, input, delta),
        limit - from <= capacity,
        from <= at,
        has_record(text, at, limit),
        shape_fault(text, at, record_lines(text, at, limit)) == Some(fault),
    ensures
        trimmed_stream(input, at + delta, capacity, config) == Err::<Seq<u8>, TrimError>(fault),
{
    lemma_record_found(text, at, limit);
    lemma_record_moved(text, from, limit, input, delta, at);
    assert(0 <= from + delta && limit + delta <= input.len()) by {
        reveal(holds_moved);
    }
    lemma_record_limit_up(input, at + delta, limit + delta, input.len() as int);
    lemma_stream_fault(input, at + delta, capacity, config, fault);
}

/// The records scanned from a stretch of an arena are the records of the
/// stream that the arena holds there: the stream's output from the start
/// of the stretch is the output text of the first `k` of them, followed by
/// the stream's output from where they end.
proof fn lemma_run_is_stream(
    text: Seq<u8>,
    from: int,
    limit: int,
    input: Seq<u8>,
    delta: int,
    recs: Seq<RecordLocator>,
    config: &TrimConfig,
    capacity: int,
    k: int,
)
    requires
        holds_moved(text, from, limit, input, delta),
        text.len() <= usize::MAX,
        input.len() <= usize::MAX,
        from <= limit,
        limit - from <= capacity,
        is_scanned_run(text, from, limit, recs),
        is_chain(recs, from, limit),
        0 <= k <= recs.len(),
    ensures
        trimmed_stream(input, from + delta, capacity, config) == prepend(
            batch_output(text, recs, config, k),
            trimmed_stream(input, record_start(recs, from, k) + delta, capacity, config),
        ),
    decreases k,
{
    if k == 0 {
        lemma_prepend_nothing(trimmed_stream(input, from + delta, capacity, config));
    } else {
        lemma_run_is_stream(text, from, limit, input, delta, recs, config, capacity, k - 1);
        let at = record_start(recs, from, k - 1);
        let rec = recs[k - 1];
        assert(is_scanned_at(text, from, limit, recs, k - 1));
        assert(is_link(recs, from, limit, k - 1));
        lemma_chain_from(recs, from, limit, k - 1);
        lemma_record_in_stream(text, from, limit, input, delta, at, rec, config, capacity);
        lemma_prepend_twice(
            batch_output(text, recs, config, k - 1),
            rec.output(text, config),
            trimmed_stream(input, rec.end + delta, capacity, config),
        );
    }
}

/// Where an arena is full and holds no complete record, the stream's next
/// record does not fit the arena.
proof fn lemma_stalled(
    text: Seq<u8>,
    limit: int,
    input: Seq<u8>,
    delta: int,
    capacity: int,
    config: &TrimConfig,
)
    requires
        holds_moved(text, 0, limit, input, delta),
        limit == capacity,
        !has_record(text, 0, limit),
    ensures
        trimmed_stream(input, delta, capacity, config) == Err::<Seq<u8>, TrimError>(
            TrimError::RecordTooLarge,
        ),
{
    reveal(trimmed_stream);
    let len = input.len() as int;
    assert(0 <= delta && limit + delta <= len) by {
        reveal(holds_moved);
    }
    if has_record(input, delta, len) {
        let lines = record_lines(input, delta, len);
        if lines.end - delta <= capacity {
            lemma_record_limit_down(input, delta, len, delta + limit);
            lemma_holds_moved_back(text, 0, limit, input, delta);
            lemma_record_moved(input, delta, delta + limit, text, -delta, delta);
        }
    }
}

/// Where an arena holds the whole rest of the stream, short of its
/// capacity, and no complete record is in it, the stream ends there.
proof fn lemma_drained(
    text: Seq<u8>,
    from: int,
    limit: int,
    input: Seq<u8>,
    delta: int,
    capacity: int,
    config: &TrimConfig,
)
    requires
        holds_moved(text, from, limit, input, delta),
        limit + delta == input.len(),
        limit - from < capacity,
        !has_record(text, from, limit),
    ensures
        trimmed_stream(input, from + delta, capacity, config) == Ok::<Seq<u8>, TrimError>(
            Seq::empty(),
        ),
{
    reveal(trimmed_stream);
    lemma_no_record_moved(text, from, limit, input, delta);
}

/// After the pending bytes are moved to the front, the arena holds the
/// same stretch of the stream as before, and as little of a record.
proof fn lemma_shifted(before: Arena, after: Arena, stream: Seq<u8>, taken: int)
    requires
        before.wf(),
        after.wf(),
        after.cursor == 0,
        after.filled == before.filled - before.cursor,
        after.pending() == before.pending(),
        holds_moved(
            before.buf@,
            before.cursor as int,
            before.filled as int,
            stream,
            taken - before.filled,
        ),
        !has_record(before.buf@, before.cursor as int, before.filled as int),
    ensures
        holds_moved(after.buf@, 0, after.filled as int, stream, taken - after.filled),
        !has_record(after.buf@, 0, after.filled as int),
{
    let back = -(before.cursor as int);
    assert(holds_moved(
        before.buf@,
        before.cursor as int,
        before.filled as int,
        after.buf@,
        back,
    )) by {
        reveal(holds_moved);
        assert forall|j: int| before.cursor <= j < before.filled implies before.buf@[j]
            == #[trigger] after.buf@[j + back] by {
            let k = j - before.cursor;
            assert(after.pending()[k] == before.pending()[k]);
            assert(after.pending()[k] == after.buf@[0 + k]);
            assert(before.pending()[k] == before.buf@[before.cursor + k]);
        }
    }
    lemma_no_record_moved(
        before.buf@,
        before.cursor as int,
        before.filled as int,
        after.buf@,
        back,
    );
    lemma_holds_moved_back(
        before.buf@,
        before.cursor as int,
        before.filled as int,
        after.buf@,
        back,
    );
    lemma_holds_moved_twice(
        after.buf@,
        0,
        after.filled as int,
        before.buf@,
        before.cursor as int,
        stream,
        taken - before.filled,
    );
}

/// After a fill from the stream, the arena holds the stretch of the stream
/// that it held, and the bytes that follow it.
proof fn lemma_filled(
    before: Seq<u8>,
    filled: int,
    after: Seq<u8>,
    count: int,
    stream: Seq<u8>,
    taken: int,
)
    requires
        holds_moved(before, 0, filled, stream, taken - filled),
        after.len() == before.len(),
        0 <= count,
        filled + count <= after.len(),
        taken + count <= stream.len(),
        forall|j: int| 0 <= j < filled ==> after[j] == before[j],
        forall|j: int|
            0 <= j < count ==> after[filled + j] == #[trigger] stream.subrange(
                taken,
                stream.len() as int,
            )[j],
    ensures
        holds_moved(after, 0, filled + count, stream, taken - filled),
{
    reveal(holds_moved);
    let delta = taken - filled;
    assert forall|j: int| 0 <= j < filled + count implies after[j] == #[trigger] stream[j
        + delta] by {
        if j < filled {
            assert(before[j] == stream[j + delta]);
        } else {
            assert(after[filled + (j - filled)] == stream.subrange(taken, stream.len() as int)[j
                - filled]);
        }
    }
}

/// After the batch is trimmed in the filled part of the arena, the spans
/// of its locators hold the batch's output text, and the bytes behind the
/// batch are as they were.
proof fn lemma_batch_trimmed(
    text: Seq<u8>,
    filled: int,
    head: Seq<u8>,
    trimmed: Seq<u8>,
    now: Seq<u8>,
    recs: Seq<RecordLocator>,
    done: Seq<RecordLocator>,
    config: &TrimConfig,
)
    requires
        0 <= filled <= text.len(),
        head == text.subrange(0, filled),
        trimmed.len() == filled,
        now == trimmed + text.subrange(filled, text.len() as int),
        is_chain(recs, 0, filled),
        done.len() == recs.len(),
        forall|i: int|
            0 <= i < recs.len() ==> #[trigger] is_trimmed_at(head, recs, config, trimmed, done, i),
        forall|j: int|
            record_start(recs, run_start(recs), recs.len() as int) <= j < filled ==> trimmed[j]
                == head[j],
    ensures
        now.len() == text.len(),
        batch_text(now, done, done.len() as int) == batch_output(
            text,
            recs,
            config,
            recs.len() as int,
        ),
        forall|i: int|
            0 <= i < done.len() ==> (#[trigger] done[i]).name_start <= done[i].end <= now.len(),
        holds_moved(
            text,
            record_start(recs, 0, recs.len() as int),
            filled,
            now,
            0,
        ),
{
    assert forall|i: int| 0 <= i < recs.len() implies #[trigger] is_trimmed_at(
        text,
        recs,
        config,
        now,
        done,
        i,
    ) by {
        assert(is_link(recs, 0, filled, i));
        assert(is_trimmed_at(head, recs, config, trimmed, done, i));
        recs[i].lemma_depends_on_span(head, text, config);
        assert(now.subrange(done[i].name_start as int, done[i].end as int) =~= trimmed.subrange(
            done[i].name_start as int,
            done[i].end as int,
        ));
    }
    lemma_trimmed_text(text, recs, config, now, done, recs.len() as int);
    assert forall|i: int| 0 <= i < done.len() implies (#[trigger] done[i]).name_start
        <= done[i].end <= now.len() by {
        assert(is_trimmed_at(text, recs, config, now, done, i));
        assert(is_link(recs, 0, filled, i));
    }
    let cursor = record_start(recs, 0, recs.len() as int);
    lemma_chain_from(recs, 0, filled, recs.len() as int);
    if recs.len() > 0 {
        assert(is_link(recs, 0, filled, 0));
    }
    assert(holds_moved(text, cursor, filled, now, 0)) by {
        reveal(holds_moved);
        assert forall|j: int| cursor <= j < filled implies text[j] == #[trigger] now[j + 0] by {
            assert(trimmed[j] == head[j]);
        }
    }
}

/// A chain that starts at the front of a buffer starts at its own first
/// record.
proof fn lemma_chain_at_front(recs: Seq<RecordLocator>, limit: int)
    requires
        is_chain(recs, 0, limit),
    ensures
        is_chain(recs, run_start(recs), limit),
        record_start(recs, run_start(recs), recs.len() as int) == record_start(
            recs,
            0,
            recs.len() as int,
        ),
{
    if recs.len() > 0 {
        assert(is_link(recs, 0, limit, 0));
    }
    assert forall|i: int| 0 <= i < recs.len() implies #[trigger] is_link(
        recs,
        run_start(recs),
        limit,
        i,
    ) by {
        assert(is_link(recs, 0, limit, i));
    }
}

/// Trims every record of `input` and returns the trimmed records, in the
/// order of the input.
///
/// The input passes through an arena of `buffer_size` bytes: the arena is
/// filled, the complete records in it are trimmed in place, spread over the
/// worker threads of the current pool, and written out in the order in
/// which they lie; what is left of the last, incomplete record is moved to
/// the front, and the arena is filled again, until a fill leaves it short
/// of its capacity.
/// The run is given up with the fault of the first unsound record, or with
/// `RecordTooLarge` where the arena is full and holds no complete record.
pub fn process_reads(buffer_size: usize, config: &TrimConfig, input: &[u8]) -> (result: Result<
    Vec<u8>,
    TrimError,
>)
    requires
        config.wf(),
    ensures
        match result {
            Ok(out) => trimmed_stream(input@, 0, buffer_size as int, config) == Ok::<
                Seq<u8>,
                TrimError,
            >(out@),
            Err(fault) => trimmed_stream(input@, 0, buffer_size as int, config) == Err::<
                Seq<u8>,
                TrimError,
            >(fault),
        },
{
    let mut arena = Arena::new(buffer_size);
    let mut batch: Vec<RecordLocator> = Vec::new();
    let mut out: Vec<u8> = Vec::new();
    let mut taken: usize = 0;
    let ghost stream = input@;
    let ghost capacity = buffer_size as int;
    proof {
        assert(!has_record(arena.buf@, 0, 0)) by {
            if has_record(arena.buf@, 0, 0) {
                lemma_record_found(arena.buf@, 0, 0);
            }
        }
        assert(holds_moved(arena.buf@, 0, 0, stream, 0)) by {
            reveal(holds_moved);
        }
        lemma_prepend_nothing(trimmed_stream(stream, 0, capacity, config));
    }
    loop
        invariant
            config.wf(),
            stream == input@,
            capacity == buffer_size,
            arena.wf(),
            arena.buf@.len() == buffer_size,
            taken <= input@.len(),
            arena.filled - arena.cursor <= taken,
            holds_moved(
                arena.buf@,
                arena.cursor as int,
                arena.filled as int,
                stream,
                taken - arena.filled,
            ),
            !has_record(arena.buf@, arena.cursor as int, arena.filled as int),
            trimmed_stream(stream, 0, capacity, config) == prepend(
                out@,
                trimmed_stream(
                    stream,
                    taken - (arena.filled - arena.cursor),
                    capacity,
                    config,
                ),
            ),
        decreases 2 * (input@.len() - taken) + (arena.filled - arena.cursor),
    {
        let ghost at_entry = arena;
        let room = arena.make_room();
        proof {
            lemma_shifted(at_entry, arena, stream, taken as int);
        }
        if let Err(fault) = room {
            proof {
                lemma_stalled(
                    arena.buf@,
                    arena.filled as int,
                    stream,
                    taken - arena.filled,
                    capacity,
                    config,
                );
            }
            return Err(fault);
        }
        let ghost before_fill = arena;
        let ghost taken_before = taken;
        let count = arena.fill_from(slice_subrange(input, taken, input.len()));
        taken = taken + count;
        proof {
            lemma_filled(
                before_fill.buf@,
                before_fill.filled as int,
                arena.buf@,
                count as int,
                stream,
                taken_before as int,
            );
        }
        let ghost text = arena.buf@;
        let ghost filled = arena.filled as int;
        let ghost delta = taken - arena.filled;
        let scanned = arena.scan_batch(&mut batch);
        let ghost recs = batch@;
        let ghost cursor = arena.cursor as int;
        proof {
            lemma_run_is_stream(
                text,
                0,
                filled,
                stream,
                delta,
                recs,
                config,
                capacity,
                recs.len() as int,
            );
            lemma_chain_from(recs, 0, filled, recs.len() as int);
            lemma_prepend_twice(
                out@,
                batch_output(text, recs, config, recs.len() as int),
                trimmed_stream(stream, cursor + delta, capacity, config),
            );
        }
        match scanned {
            Err(fault) => {
                proof {
                    lemma_fault_in_stream(
                        text,
                        0,
                        filled,
                        stream,
                        delta,
                        cursor,
                        fault,
                        config,
                        capacity,
                    );
                }
                return Err(fault);
            },
            Ok(()) => {},
        }
        proof {
            lemma_chain_at_front(recs, filled);
        }
        let head = arena.filled_mut();
        let ghost head_before = head@;
        process_batch_in_parallel(head, &mut batch, config);
        let ghost head_after = head@;
        proof {
            lemma_batch_trimmed(
                text,
                filled,
                head_before,
                head_after,
                arena.buf@,
                recs,
                batch@,
                config,
            );
            lemma_no_record_moved(text, cursor, filled, arena.buf@, 0);
            lemma_holds_moved_back(text, cursor, filled, arena.buf@, 0);
            lemma_holds_moved_part(text, 0, filled, stream, delta, cursor, filled);
            lemma_holds_moved_twice(arena.buf@, cursor, filled, text, 0, stream, delta);
        }
        emit_batch(arena.buf.as_slice(), &batch, &mut out);
        if !arena.is_full() {
            proof {
                lemma_drained(arena.buf@, cursor, filled, stream, delta, capacity, config);
                assert(out@ + Seq::<u8>::empty() =~= out@);
            }
            return Ok(out);
        }
    }
}

} // verus!
