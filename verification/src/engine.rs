//! The batch dispatcher: trimming every record of a batch in place, on one
//! thread or spread over the worker threads of a pool, and writing the
//! batch out in the order in which it was found.

use vstd::prelude::*;
use rayon::iter::{IndexedParallelIterator, IntoParallelRefMutIterator, ParallelIterator};
use crate::record::RecordLocator;
use crate::scan::{is_chain, is_link, lemma_chain_ordered, record_start};
use crate::window::TrimConfig;

verus! {

/// Where a run of records starts: at its first record.
pub open spec fn run_start(recs: Seq<RecordLocator>) -> int {
    if recs.len() > 0 {
        recs[0].name_start as int
    } else {
        0
    }
}

/// The buffer after the first `k` records of `recs` are trimmed in place,
/// one after the other.
pub open spec fn batch_bytes(
    text: Seq<u8>,
    recs: Seq<RecordLocator>,
    config: &TrimConfig,
    k: int,
) -> Seq<u8>
    decreases k,
{
    if k <= 0 {
        text
    } else {
        recs[k - 1].processed_bytes(batch_bytes(text, recs, config, k - 1), config)
    }
}

/// The output text of the first `k` records of `recs`, in their order.
pub open spec fn batch_output(
    text: Seq<u8>,
    recs: Seq<RecordLocator>,
    config: &TrimConfig,
    k: int,
) -> Seq<u8>
    decreases k,
{
    if k <= 0 {
        Seq::empty()
    } else {
        batch_output(text, recs, config, k - 1) + recs[k - 1].output(text, config)
    }
}

/// The bytes that the first `k` locators of `recs` span in `text`, in their
/// order.
pub open spec fn batch_text(text: Seq<u8>, recs: Seq<RecordLocator>, k: int) -> Seq<u8>
    decreases k,
{
    if k <= 0 {
        Seq::empty()
    } else {
        batch_text(text, recs, k - 1) + text.subrange(
            recs[k - 1].name_start as int,
            recs[k - 1].end as int,
        )
    }
}

/// Record `i` has been trimmed: its locator is the rewritten one, and its
/// span of `now` holds its output text, both as decided on `before`.
pub open spec fn is_trimmed_at(
    before: Seq<u8>,
    recs: Seq<RecordLocator>,
    config: &TrimConfig,
    now: Seq<u8>,
    done: Seq<RecordLocator>,
    i: int,
) -> bool {
    &&& done[i] == recs[i].processed(before, config)
    &&& done[i].wf()
    &&& done[i].name_start == recs[i].name_start
    &&& done[i].end <= recs[i].end
    &&& now.subrange(done[i].name_start as int, done[i].end as int) == recs[i].output(
        before,
        config,
    )
}

/// Whether the records of a batch lie one directly behind the other, each
/// well formed and within a buffer of `limit` bytes: what trimming the
/// batch asks of it.
pub fn is_batch(batch: &Vec<RecordLocator>, limit: usize) -> (ok: bool)
    ensures
        ok <==> is_chain(batch@, run_start(batch@), limit as int),
{
    let n = batch.len();
    let ghost from = run_start(batch@);
    let mut k: usize = 0;
    while k < n
        invariant
            n == batch@.len(),
            from == run_start(batch@),
            0 <= k <= n,
            forall|i: int| 0 <= i < k ==> #[trigger] is_link(batch@, from, limit as int, i),
        decreases n - k,
    {
        let rec = &batch[k];
        let linked = if k == 0 {
            true
        } else {
            rec.name_start == batch[k - 1].end
        };
        if !(linked && rec.fits(limit)) {
            proof {
                assert(!is_link(batch@, from, limit as int, k as int));
            }
            return false;
        }
        k = k + 1;
    }
    true
}

/// Trims every record of a batch in place, in the order of the batch.
///
/// Each record is decided on and rewritten within its own span, so what
/// becomes of one record does not depend on the others: locator and output
/// text of each are those that the untouched buffer gives. Bytes outside
/// the batch stay as they were.
pub fn process_batch(buf: &mut [u8], batch: &mut Vec<RecordLocator>, config: &TrimConfig)
    requires
        config.wf(),
        is_chain(old(batch)@, run_start(old(batch)@), old(buf)@.len() as int),
    ensures
        final(buf)@.len() == old(buf)@.len(),
        final(batch)@.len() == old(batch)@.len(),
        final(buf)@ == batch_bytes(old(buf)@, old(batch)@, config, old(batch)@.len() as int),
        forall|i: int|
            0 <= i < old(batch)@.len() ==> #[trigger] is_trimmed_at(
                old(buf)@,
                old(batch)@,
                config,
                final(buf)@,
                final(batch)@,
                i,
            ),
        forall|j: int|
            0 <= j < run_start(old(batch)@) ==> final(buf)@[j] == old(buf)@[j],
        forall|j: int|
            record_start(old(batch)@, run_start(old(batch)@), old(batch)@.len() as int) <= j
                < old(buf)@.len() ==> final(buf)@[j] == old(buf)@[j],
{
    let ghost before = buf@;
    let ghost recs = batch@;
    let ghost from = run_start(recs);
    let ghost limit = before.len() as int;
    let n = batch.len();
    let mut k: usize = 0;
    while k < n
        invariant
            config.wf(),
            is_chain(recs, from, limit),
            from == run_start(recs),
            limit == before.len(),
            n == recs.len(),
            batch@.len() == n,
            buf@.len() == before.len(),
            0 <= k <= n,
            buf@ == batch_bytes(before, recs, config, k as int),
            forall|i: int|
                0 <= i < k ==> #[trigger] is_trimmed_at(before, recs, config, buf@, batch@, i),
            forall|i: int| k <= i < n ==> batch@[i] == recs[i],
            forall|j: int| 0 <= j < from ==> buf@[j] == before[j],
            forall|j: int| record_start(recs, from, k as int) <= j < limit ==> buf@[j] == before[j],
        decreases n - k,
    {
        let ghost now = buf@;
        let ghost done = batch@;
        let mut rec = batch[k];
        proof {
            assert(is_link(recs, from, limit, k as int));
        }
        rec.process(buf, config);
        batch[k] = rec;
        proof {
            lemma_batch_step(before, recs, config, from, now, done, buf@, rec, k as int);
        }
        k = k + 1;
    }
}

/// One step of trimming a batch: with the records before record `k`
/// trimmed and the bytes from record `k` on untouched, trimming record `k`
/// leaves the records before it trimmed, trims it as the untouched buffer
/// has it, and touches no byte before the batch or behind the record.
proof fn lemma_batch_step(
    before: Seq<u8>,
    recs: Seq<RecordLocator>,
    config: &TrimConfig,
    from: int,
    now: Seq<u8>,
    done: Seq<RecordLocator>,
    after: Seq<u8>,
    rec: RecordLocator,
    k: int,
)
    requires
        is_chain(recs, from, before.len() as int),
        from == run_start(recs),
        0 <= k < recs.len(),
        done.len() == recs.len(),
        now.len() == before.len(),
        after.len() == before.len(),
        forall|i: int| 0 <= i < k ==> #[trigger] is_trimmed_at(before, recs, config, now, done, i),
        forall|j: int| 0 <= j < from ==> now[j] == before[j],
        forall|j: int| record_start(recs, from, k) <= j < before.len() ==> now[j] == before[j],
        rec == recs[k].processed(now, config),
        rec.wf(),
        rec.end <= recs[k].end,
        after.subrange(rec.name_start as int, rec.end as int) == recs[k].output(now, config),
        forall|j: int|
            0 <= j < before.len() && !(recs[k].seq_start <= j < rec.end) ==> after[j] == now[j],
    ensures
        forall|i: int|
            0 <= i < k + 1 ==> #[trigger] is_trimmed_at(
                before,
                recs,
                config,
                after,
                done.update(k, rec),
                i,
            ),
        forall|j: int| 0 <= j < from ==> after[j] == before[j],
        forall|j: int| record_start(recs, from, k + 1) <= j < before.len() ==>
            after[j] == before[j],
{
    let limit = before.len() as int;
    let here = recs[k];
    assert(is_link(recs, from, limit, k));
    assert(is_link(recs, from, limit, 0));
    if k > 0 {
        lemma_chain_ordered(recs, from, limit, 0, k);
    }
    here.lemma_depends_on_span(now, before, config);
    let next = done.update(k, rec);
    assert forall|i: int| 0 <= i < k + 1 implies #[trigger] is_trimmed_at(
        before,
        recs,
        config,
        after,
        next,
        i,
    ) by {
        if i < k {
            assert(is_trimmed_at(before, recs, config, now, done, i));
            assert(is_link(recs, from, limit, i));
            lemma_chain_ordered(recs, from, limit, i, k);
            assert(after.subrange(done[i].name_start as int, done[i].end as int) =~= now.subrange(
                done[i].name_start as int,
                done[i].end as int,
            ));
        }
    }
}

/// Appends to `out` the bytes of every record of the batch, in the order of
/// the batch.
pub fn emit_batch(buf: &[u8], batch: &Vec<RecordLocator>, out: &mut Vec<u8>)
    requires
        forall|i: int|
            0 <= i < batch@.len() ==> (#[trigger] batch@[i]).name_start <= batch@[i].end
                <= buf@.len(),
    ensures
        final(out)@ == old(out)@ + batch_text(buf@, batch@, batch@.len() as int),
{
    let ghost start = out@;
    let mut k: usize = 0;
    while k < batch.len()
        invariant
            0 <= k <= batch@.len(),
            forall|i: int|
                0 <= i < batch@.len() ==> (#[trigger] batch@[i]).name_start <= batch@[i].end
                    <= buf@.len(),
            out@ == start + batch_text(buf@, batch@, k as int),
        decreases batch@.len() - k,
    {
        let rec = batch[k];
        let ghost so_far = out@;
        let mut j: usize = rec.name_start;
        while j < rec.end
            invariant
                rec.name_start <= j <= rec.end <= buf@.len(),
                out@ == so_far + buf@.subrange(rec.name_start as int, j as int),
            decreases rec.end - j,
        {
            out.push(buf[j]);
            j = j + 1;
            assert(out@ =~= so_far + buf@.subrange(rec.name_start as int, j as int));
        }
        k = k + 1;
        assert(out@ =~= start + batch_text(buf@, batch@, k as int));
    }
}

/// The order in which two records of a buffer are trimmed is immaterial:
/// either way each gets the locator that the untouched buffer gives it, and
/// the buffer ends up the same.
pub proof fn lemma_order_is_immaterial(
    a: RecordLocator,
    b: RecordLocator,
    text: Seq<u8>,
    config: &TrimConfig,
)
    requires
        a.wf(),
        b.wf(),
        a.end <= b.name_start,
        b.end <= text.len(),
    ensures
        a.processed(b.processed_bytes(text, config), config) == a.processed(text, config),
        b.processed(a.processed_bytes(text, config), config) == b.processed(text, config),
        a.processed_bytes(b.processed_bytes(text, config), config) == b.processed_bytes(
            a.processed_bytes(text, config),
            config,
        ),
{
    let after_a = a.processed_bytes(text, config);
    let after_b = b.processed_bytes(text, config);
    a.lemma_processed_with(text, text, config);
    b.lemma_processed_with(text, text, config);
    a.lemma_processed_with(text, after_b, config);
    b.lemma_processed_with(text, after_a, config);
    assert(a.processed_bytes(after_b, config) =~= b.processed_bytes(after_a, config));
}

/// Once a batch is trimmed, the bytes its locators span are the batch's
/// output text.
pub proof fn lemma_trimmed_text(
    before: Seq<u8>,
    recs: Seq<RecordLocator>,
    config: &TrimConfig,
    now: Seq<u8>,
    done: Seq<RecordLocator>,
    k: int,
)
    requires
        0 <= k <= recs.len(),
        done.len() == recs.len(),
        forall|i: int|
            0 <= i < recs.len() ==> #[trigger] is_trimmed_at(before, recs, config, now, done, i),
    ensures
        batch_text(now, done, k) == batch_output(before, recs, config, k),
    decreases k,
{
    if k > 0 {
        lemma_trimmed_text(before, recs, config, now, done, k - 1);
        assert(is_trimmed_at(before, recs, config, now, done, k - 1));
    }
}

/// The locators of a batch once its first `k` records are trimmed.
pub open spec fn batch_done(
    text: Seq<u8>,
    recs: Seq<RecordLocator>,
    config: &TrimConfig,
    k: int,
) -> Seq<RecordLocator> {
    Seq::new(
        recs.len(),
        |i: int|
            if i < k {
                recs[i].processed(text, config)
            } else {
                recs[i]
            },
    )
}

/// Trimming the records of a batch one after the other trims each as the
/// untouched buffer has it, and touches no byte before the batch or behind
/// the records trimmed so far.
pub proof fn lemma_batch_trimmed(
    before: Seq<u8>,
    recs: Seq<RecordLocator>,
    config: &TrimConfig,
    k: int,
)
    requires
        is_chain(recs, run_start(recs), before.len() as int),
        0 <= k <= recs.len(),
    ensures
        batch_bytes(before, recs, config, k).len() == before.len(),
        forall|i: int|
            0 <= i < k ==> #[trigger] is_trimmed_at(
                before,
                recs,
                config,
                batch_bytes(before, recs, config, k),
                batch_done(before, recs, config, k),
                i,
            ),
        forall|j: int|
            0 <= j < run_start(recs) ==> batch_bytes(before, recs, config, k)[j] == before[j],
        forall|j: int|
            record_start(recs, run_start(recs), k) <= j < before.len() ==> batch_bytes(
                before,
                recs,
                config,
                k,
            )[j] == before[j],
    decreases k,
{
    if k > 0 {
        lemma_batch_trimmed(before, recs, config, k - 1);
        let from = run_start(recs);
        let now = batch_bytes(before, recs, config, k - 1);
        let done = batch_done(before, recs, config, k - 1);
        let here = recs[k - 1];
        assert(is_link(recs, from, before.len() as int, k - 1));
        here.lemma_processed(now, config);
        let rec = here.processed(now, config);
        let after = here.processed_bytes(now, config);
        lemma_batch_step(before, recs, config, from, now, done, after, rec, k - 1);
        assert(is_trimmed_at(before, recs, config, after, done.update(k - 1, rec), k - 1));
        assert(batch_done(before, recs, config, k) =~= done.update(k - 1, rec));
    }
}

/// The first `k` of `parts`, one behind the other.
pub open spec fn joined(parts: Seq<Seq<u8>>, k: int) -> Seq<u8>
    decreases k,
{
    if k <= 0 {
        Seq::empty()
    } else {
        joined(parts, k - 1) + parts[k - 1]
    }
}

/// Joining the first `k` parts does not look at the parts behind them.
proof fn lemma_joined_take(parts: Seq<Seq<u8>>, k: int, n: int)
    requires
        0 <= k <= n <= parts.len(),
    ensures
        joined(parts.take(n), k) == joined(parts, k),
    decreases k,
{
    if k > 0 {
        lemma_joined_take(parts, k - 1, n);
    }
}

/// The span of record `i` of a batch.
pub open spec fn span_of(text: Seq<u8>, recs: Seq<RecordLocator>, i: int) -> Seq<u8> {
    text.subrange(recs[i].name_start as int, recs[i].end as int)
}

/// What trimming a record within its own span `span` makes of locator and
/// span: `done` and `after`.
pub open spec fn span_trimmed(
    rec: RecordLocator,
    span: Seq<u8>,
    done: RecordLocator,
    after: Seq<u8>,
    config: &TrimConfig,
) -> bool {
    let base = rec.name_start as int;
    &&& done == rec.moved(-base).processed(span, config).moved(base)
    &&& after == rec.moved(-base).processed_bytes(span, config)
}

/// Spans that are trimmed each on its own make up, one behind the other,
/// the batch trimmed in place.
proof fn lemma_spans_are_batch(
    before: Seq<u8>,
    recs: Seq<RecordLocator>,
    config: &TrimConfig,
    parts: Seq<Seq<u8>>,
    k: int,
)
    requires
        before.len() <= usize::MAX,
        is_chain(recs, run_start(recs), before.len() as int),
        parts.len() == recs.len(),
        forall|i: int|
            0 <= i < recs.len() ==> span_trimmed(
                recs[i],
                span_of(before, recs, i),
                recs[i].processed(before, config),
                #[trigger] parts[i],
                config,
            ),
        0 <= k <= recs.len(),
    ensures
        0 <= run_start(recs) <= record_start(recs, run_start(recs), k) <= before.len(),
        joined(parts, k).len() == record_start(recs, run_start(recs), k) - run_start(recs),
        batch_bytes(before, recs, config, k) == before.subrange(0, run_start(recs)) + joined(
            parts,
            k,
        ) + before.subrange(record_start(recs, run_start(recs), k), before.len() as int),
    decreases k,
{
    let from = run_start(recs);
    let limit = before.len() as int;
    if recs.len() > 0 {
        assert(is_link(recs, from, limit, 0));
    }
    if k == 0 {
        assert(before =~= before.subrange(0, from) + joined(parts, 0) + before.subrange(
            from,
            limit,
        ));
    } else {
        lemma_spans_are_batch(before, recs, config, parts, k - 1);
        let here = recs[k - 1];
        assert(is_link(recs, from, limit, k - 1));
        let ahead = before.subrange(0, from) + joined(parts, k - 1);
        lemma_span_joined(before, ahead, here, parts[k - 1], config);
        assert(ahead + parts[k - 1] =~= before.subrange(0, from) + joined(parts, k));
    }
}

/// One span trimmed on its own, put behind what lies ahead of it and in
/// front of what lies behind it, is the record trimmed in place.
proof fn lemma_span_joined(
    before: Seq<u8>,
    ahead: Seq<u8>,
    here: RecordLocator,
    part: Seq<u8>,
    config: &TrimConfig,
)
    requires
        here.wf(),
        here.end <= before.len() <= usize::MAX,
        ahead.len() == here.name_start,
        part == here.moved(-(here.name_start as int)).processed_bytes(
            before.subrange(here.name_start as int, here.end as int),
            config,
        ),
    ensures
        part.len() == here.end - here.name_start,
        here.processed_bytes(
            ahead + before.subrange(here.name_start as int, before.len() as int),
            config,
        ) == ahead + part + before.subrange(here.end as int, before.len() as int),
{
    let text = ahead + before.subrange(here.name_start as int, before.len() as int);
    let span = before.subrange(here.name_start as int, here.end as int);
    lemma_cut_in_three(ahead, before, here.name_start as int, here.end as int);
    here.lemma_span_is_record(text, config);
    here.lemma_moved_to_span();
    here.moved(-(here.name_start as int)).lemma_processed(span, config);
}

/// A text that is `ahead` followed by what `before` holds from `n` on has
/// `ahead` as its first `n` bytes, and behind them what `before` has.
proof fn lemma_cut_in_three(ahead: Seq<u8>, before: Seq<u8>, n: int, e: int)
    requires
        ahead.len() == n,
        0 <= n <= e <= before.len(),
    ensures
        ({
            let text = ahead + before.subrange(n, before.len() as int);
            &&& text.len() == before.len()
            &&& text.subrange(0, n) == ahead
            &&& text.subrange(n, e) == before.subrange(n, e)
            &&& text.subrange(e, before.len() as int) == before.subrange(e, before.len() as int)
        }),
{
    let text = ahead + before.subrange(n, before.len() as int);
    assert(text.subrange(0, n) =~= ahead);
    assert(text.subrange(n, e) =~= before.subrange(n, e));
    assert(text.subrange(e, before.len() as int) =~= before.subrange(e, before.len() as int));
}

/// Splits the spans of a batch out of the buffer, each as a slice of its
/// own.
///
/// Whatever the spans end up holding, the buffer ends up holding it in
/// their places, and what it held before the batch and behind it.
fn split_spans<'a>(buf: &'a mut [u8], batch: &Vec<RecordLocator>) -> (spans: Vec<&'a mut [u8]>)
    requires
        is_chain(batch@, run_start(batch@), old(buf)@.len() as int),
    ensures
        spans@.len() == batch@.len(),
        forall|i: int| 0 <= i < spans@.len() ==> spans@[i]@ == span_of(old(buf)@, batch@, i),
        forall|parts: Seq<Seq<u8>>|
            parts.len() == spans@.len() && (forall|i: int|
                0 <= i < spans@.len() ==> #[trigger] parts[i] == final(spans@[i])@) ==> final(buf)@
                == old(buf)@.subrange(0, run_start(batch@)) + #[trigger] joined(
                parts,
                parts.len() as int,
            ) + old(buf)@.subrange(
                record_start(batch@, run_start(batch@), batch@.len() as int),
                old(buf)@.len() as int,
            ),
{
    let ghost before = buf@;
    let ghost recs = batch@;
    let ghost from = run_start(recs);
    let ghost limit = before.len() as int;
    let n = batch.len();
    let mut spans: Vec<&mut [u8]> = Vec::new();
    let start = if n > 0 {
        batch[0].name_start
    } else {
        0
    };
    proof {
        if n > 0 {
            assert(is_link(recs, from, limit, 0));
        }
    }
    let whole = buf;
    let (front, behind) = whole.split_at_mut(start);
    let mut rest = behind;
    let mut base: usize = start;
    let mut k: usize = 0;
    while k < n
        invariant
            n == recs.len(),
            recs == batch@,
            from == run_start(recs),
            limit == before.len(),
            before == old(buf)@,
            is_chain(recs, from, limit),
            0 <= k <= n,
            spans@.len() == k,
            base == record_start(recs, from, k as int),
            from <= base <= limit,
            rest@ == before.subrange(base as int, limit),
            final(front)@ == before.subrange(0, from),
            forall|i: int| 0 <= i < k ==> spans@[i]@ == span_of(before, recs, i),
            forall|parts: Seq<Seq<u8>>|
                parts.len() == k && (forall|i: int|
                    0 <= i < k ==> #[trigger] parts[i] == final(spans@[i])@) ==> final(buf)@
                    == before.subrange(0, from) + #[trigger] joined(parts, parts.len() as int)
                    + final(rest)@,
        decreases n - k,
    {
        let end = batch[k].end;
        let ghost so_far = spans@;
        let ghost ahead = final(rest)@;
        proof {
            assert(is_link(recs, from, limit, k as int));
        }
        let (head, tail) = rest.split_at_mut(end - base);
        spans.push(head);
        proof {
            assert(spans@[k as int]@ =~= span_of(before, recs, k as int));
            assert forall|parts: Seq<Seq<u8>>|
                parts.len() == k + 1 && (forall|i: int|
                    0 <= i < k + 1 ==> #[trigger] parts[i] == final(spans@[i])@)
                implies final(buf)@ == before.subrange(0, from) + #[trigger] joined(
                parts,
                parts.len() as int,
            ) + final(tail)@ by {
                let shorter = parts.take(k as int);
                assert forall|i: int| 0 <= i < k implies #[trigger] shorter[i]
                    == final(so_far[i])@ by {
                    assert(parts[i] == final(spans@[i])@);
                }
                assert(final(buf)@ == before.subrange(0, from) + joined(
                    shorter,
                    shorter.len() as int,
                ) + ahead);
                lemma_joined_take(parts, k as int, k as int);
                assert(parts[k as int] == final(spans@[k as int])@);
                assert(joined(parts, k + 1) == joined(parts, k as int) + parts[k as int]);
                assert(before.subrange(0, from) + joined(shorter, k as int) + (parts[k as int]
                    + final(tail)@) =~= before.subrange(0, from) + joined(parts, k + 1)
                    + final(tail)@);
            }
            assert(tail@ =~= before.subrange(end as int, limit));
        }
        rest = tail;
        base = end;
        k = k + 1;
    }
    spans
}

/// Trims every record within its own span, the records spread over the
/// worker threads of the current pool.
///
/// Trusted: the body is rayon's `IntoParallelRefMutIterator::par_iter_mut`
/// on the locators, `IndexedParallelIterator::zip` with the spans and
/// `ParallelIterator::for_each`. Of them it is claimed that the closure is
/// called once for each pair of a locator and the span at the same place,
/// so that every locator and every span end up as `process_span` makes
/// them; on which thread and in which order the calls run does not show, as
/// no two of them share a byte. Where no pool is installed, rayon starts
/// its global pool on first use, and panics if it cannot start it.
#[verifier::external_body]
fn trim_spans(batch: &mut [RecordLocator], spans: Vec<&mut [u8]>, config: &TrimConfig)
    requires
        config.wf(),
        spans@.len() == old(batch)@.len(),
        forall|i: int|
            0 <= i < spans@.len() ==> {
                &&& old(batch)@[i].wf()
                &&& spans@[i]@.len() == old(batch)@[i].end - old(batch)@[i].name_start
            },
    ensures
        final(batch)@.len() == old(batch)@.len(),
        forall|i: int|
            0 <= i < spans@.len() ==> span_trimmed(
                old(batch)@[i],
                spans@[i]@,
                final(batch)@[i],
                final(spans@[i])@,
                config,
            ),
{
    batch.par_iter_mut().zip(spans).for_each(|(rec, span)| rec.process_span(span, config));
}

/// Trims every record of a batch in place, the records spread over the
/// worker threads of the current pool.
///
/// What comes of it is what [`process_batch`] makes of the batch: the pool
/// and its size do not show in the buffer or in the locators.
pub fn process_batch_in_parallel(
    buf: &mut [u8],
    batch: &mut Vec<RecordLocator>,
    config: &TrimConfig,
)
    requires
        config.wf(),
        is_chain(old(batch)@, run_start(old(batch)@), old(buf)@.len() as int),
    ensures
        final(buf)@.len() == old(buf)@.len(),
        final(batch)@.len() == old(batch)@.len(),
        final(buf)@ == batch_bytes(old(buf)@, old(batch)@, config, old(batch)@.len() as int),
        forall|i: int|
            0 <= i < old(batch)@.len() ==> #[trigger] is_trimmed_at(
                old(buf)@,
                old(batch)@,
                config,
                final(buf)@,
                final(batch)@,
                i,
            ),
        forall|j: int|
            0 <= j < run_start(old(batch)@) ==> final(buf)@[j] == old(buf)@[j],
        forall|j: int|
            record_start(old(batch)@, run_start(old(batch)@), old(batch)@.len() as int) <= j
                < old(buf)@.len() ==> final(buf)@[j] == old(buf)@[j],
{
    let ghost before = buf@;
    let ghost recs = batch@;
    let ghost limit = before.len() as int;
    let ghost count = recs.len() as int;
    let total = buf.len();
    let spans = split_spans(buf, batch);
    let ghost held = spans@;
    proof {
        assert forall|i: int| 0 <= i < count implies recs[i].wf() && held[i]@.len() == recs[i].end
            - recs[i].name_start by {
            assert(is_link(recs, run_start(recs), limit, i));
            assert(held[i]@ == span_of(before, recs, i));
        }
    }
    trim_spans(batch.as_mut_slice(), spans, config);
    proof {
        let parts = Seq::new(recs.len(), |i: int| final(held[i])@);
        assert forall|i: int| 0 <= i < count implies #[trigger] batch@[i] == recs[i].processed(
            before,
            config,
        ) && span_trimmed(
            recs[i],
            span_of(before, recs, i),
            recs[i].processed(before, config),
            parts[i],
            config,
        ) by {
            assert(is_link(recs, run_start(recs), limit, i));
            assert(held[i]@ == span_of(before, recs, i));
            assert(span_trimmed(recs[i], held[i]@, batch@[i], final(held[i])@, config));
            recs[i].lemma_span_is_record(before, config);
        }
        assert forall|i: int| 0 <= i < count implies span_trimmed(
            recs[i],
            span_of(before, recs, i),
            recs[i].processed(before, config),
            #[trigger] parts[i],
            config,
        ) by {
            assert(batch@[i] == recs[i].processed(before, config));
        }
        assert(buf@ == before.subrange(0, run_start(recs)) + joined(parts, parts.len() as int)
            + before.subrange(record_start(recs, run_start(recs), count), limit));
        lemma_spans_are_batch(before, recs, config, parts, count);
        lemma_batch_trimmed(before, recs, config, count);
        assert(batch@ =~= batch_done(before, recs, config, count));
    }
}

} // verus!
