//! What holds of the trimming decision and of a trimmed record for every
//! read.

use vstd::prelude::*;
use crate::adapter::{lemma_exact_cut_is, prefix_match};
use crate::ambiguous::{
    all_ambiguous, AMBIGUOUS_BASE, lemma_n_ends_bounds, lemma_n_stop_is,
    lemma_resolved_ends_whole, lemma_resolved_read_whole, n_stop,
};
use crate::quality::{lemma_high_quality_uncut, lemma_qual_trim_bounds, QUAL_BASE, qual_trim_spec};
use crate::record::{NEWLINE, RecordLocator, SEPARATOR};
use crate::window::{min_int, TrimConfig};

verus! {

/// Every quality value of the read scores at least the cutoff for the
/// back and, where the front is trimmed by quality, the cutoff for the
/// front.
pub open spec fn high_quality(config: &TrimConfig, qual: Seq<u8>) -> bool {
    forall|i: int|
        0 <= i < qual.len() ==> {
            &&& qual[i] - QUAL_BASE >= config.cut_back
            &&& config.cut_front > 0 ==> qual[i] - QUAL_BASE >= config.cut_front
        }
}

/// No base of the read is the ambiguous symbol.
pub open spec fn fully_resolved(read: Seq<u8>) -> bool {
    forall|i: int| 0 <= i < read.len() ==> read[i] != AMBIGUOUS_BASE
}

/// Quality trimming cuts nothing from uniformly high quality.
pub proof fn lemma_high_quality_kept(config: &TrimConfig, qual: Seq<u8>)
    requires
        high_quality(config, qual),
    ensures
        qual_trim_spec(qual, config.cut_front as int, config.cut_back as int) == (
            0int,
            qual.len() as int,
        ),
{
    lemma_high_quality_uncut(qual, config.cut_back + QUAL_BASE);
    if config.cut_front > 0 {
        lemma_high_quality_uncut(qual, config.cut_front + QUAL_BASE);
    }
}

/// A read of uniformly high quality, without ambiguous bases and without
/// an occurrence of the adapter, is kept whole.
pub proof fn lemma_clean_read_kept(config: &TrimConfig, read: Seq<u8>, qual: Seq<u8>)
    requires
        read.len() == qual.len(),
        high_quality(config, qual),
        fully_resolved(read),
        config.adapter.absent(read, read.len() as int),
    ensures
        config.start_spec(read, qual) == 0,
        config.stop_spec(read, qual) == read.len(),
{
    lemma_high_quality_kept(config, qual);
    lemma_resolved_read_whole(read);
    assert(read.subrange(0, read.len() as int) =~= read);
}

/// A record whose read is of uniformly high quality, without ambiguous
/// bases and without an occurrence of the adapter, is written out with its
/// header, its bases and their quality characters as they are; of the
/// separator line only the marker is left.
pub proof fn lemma_clean_record_kept(rec: RecordLocator, text: Seq<u8>, config: &TrimConfig)
    requires
        rec.wf(),
        rec.end <= text.len(),
        high_quality(config, rec.quals(text)),
        fully_resolved(rec.bases(text)),
        config.adapter.absent(rec.bases(text), rec.seq_len()),
    ensures
        rec.output(text, config) == rec.header(text) + rec.bases(text) + seq![
            NEWLINE,
            SEPARATOR,
            NEWLINE,
        ] + rec.quals(text) + seq![NEWLINE],
{
    lemma_clean_read_kept(config, rec.bases(text), rec.quals(text));
    let decided = rec.decided(text, config);
    assert(decided.trimmed_body(text) =~= rec.bases(text) + seq![NEWLINE, SEPARATOR, NEWLINE]
        + rec.quals(text) + seq![NEWLINE]);
    assert(rec.header(text) + decided.trimmed_body(text) =~= rec.header(text) + rec.bases(text)
        + seq![NEWLINE, SEPARATOR, NEWLINE] + rec.quals(text) + seq![NEWLINE]);
}

/// Under exact matching, a read of uniformly high quality and without
/// ambiguous bases, in which the adapter stands at position `p` and agrees
/// with the read nowhere before, is cut at `p`.
pub proof fn lemma_exact_adapter_cut(config: &TrimConfig, read: Seq<u8>, qual: Seq<u8>, p: int)
    requires
        config.adapter.policy is Exact,
        read.len() == qual.len(),
        high_quality(config, qual),
        fully_resolved(read),
        0 <= p,
        p + config.adapter.bytes@.len() <= read.len(),
        read.subrange(p, p + config.adapter.bytes@.len()) == config.adapter.bytes@,
        forall|i: int|
            0 <= i < p ==> !prefix_match(read, read.len() as int, config.adapter.bytes@, i),
    ensures
        config.stop_spec(read, qual) == p,
        config.start_spec(read, qual) == 0,
{
    let adapter = config.adapter.bytes@;
    let len = read.len() as int;
    lemma_high_quality_kept(config, qual);
    lemma_resolved_read_whole(read);
    assert(prefix_match(read, len, adapter, p)) by {
        assert forall|j: int| 0 <= j < adapter.len()
            implies read[p + j] == #[trigger] adapter[j] by {
            assert(read.subrange(p, p + adapter.len())[j] == read[p + j]);
        }
    }
    lemma_exact_cut_is(read, len, adapter, p);
    lemma_resolved_read_whole(read.subrange(0, p));
}

/// A read that is the ambiguous symbol throughout is trimmed to the empty
/// window, whatever its quality values and whatever the adapter.
pub proof fn lemma_all_ambiguous_empty(config: &TrimConfig, read: Seq<u8>, qual: Seq<u8>)
    requires
        all_ambiguous(read),
    ensures
        config.start_spec(read, qual) == 0,
        config.stop_spec(read, qual) == 0,
{
    lemma_qual_trim_bounds(qual, config.cut_front as int, config.cut_back as int);
    config.adapter.lemma_cut_bounds(read, 0);
    lemma_n_ends_bounds(read.subrange(0, 0));
}

/// Trimming an already trimmed read again keeps it whole exactly when its
/// kept part begins with a resolved base, has nothing left to cut by
/// quality, and holds no occurrence of the adapter. Ambiguous bases never
/// cut the end of a trimmed read again: its last base is a resolved one.
///
/// A second trimming does cut where the first one, cutting for one reason,
/// laid bare what another reason cuts: low quality next to an ambiguous
/// tail of high quality, or the first bases of the adapter at the new end.
pub proof fn lemma_trimmed_read_kept(config: &TrimConfig, read: Seq<u8>, qual: Seq<u8>)
    ensures
        ({
            let start = config.start_spec(read, qual);
            let stop = config.stop_spec(read, qual);
            let bases = read.subrange(start, stop);
            let quals = qual.subrange(start, stop);
            let settled = {
                &&& start < stop ==> bases[0] != AMBIGUOUS_BASE
                &&& qual_trim_spec(quals, config.cut_front as int, config.cut_back as int) == (
                    0int,
                    stop - start,
                )
                &&& config.adapter.absent(bases, stop - start)
            };
            &&& n_stop(bases) == stop - start
            &&& settled <==> config.start_spec(bases, quals) == 0 && config.stop_spec(
                bases,
                quals,
            ) == stop - start
        }),
{
    let start = config.start_spec(read, qual);
    let stop = config.stop_spec(read, qual);
    let bases = read.subrange(start, stop);
    let quals = qual.subrange(start, stop);
    config.lemma_window_bounds(read, qual);
    lemma_kept_ends_resolved(config, read, qual);
    lemma_n_ends_bounds(bases);
    lemma_qual_trim_bounds(quals, config.cut_front as int, config.cut_back as int);
    config.lemma_window_bounds(bases, quals);
    let quality_stop = qual_trim_spec(quals, config.cut_front as int, config.cut_back as int).1;
    let clean = min_int(quality_stop, n_stop(bases));
    config.adapter.lemma_cut_bounds(bases, clean);
    let cut = min_int(clean, config.adapter.cut_spec(bases, clean));
    lemma_n_ends_bounds(bases.subrange(0, cut));
    if start < stop {
        lemma_n_stop_is(bases, stop - start - 1);
        assert(bases.subrange(0, stop - start) =~= bases);
        if bases[0] != AMBIGUOUS_BASE {
            lemma_resolved_ends_whole(bases);
        }
    } else {
        config.adapter.lemma_cut_bounds(bases, 0);
    }
}

/// A record that has been trimmed holds, as its bases and their quality
/// characters, what the decision kept of the record it was.
pub proof fn lemma_trimmed_record_holds_kept(rec: RecordLocator, text: Seq<u8>, config: &TrimConfig)
    requires
        rec.wf(),
        rec.end <= text.len(),
    ensures
        ({
            let decided = rec.decided(text, config);
            let once = rec.processed(text, config);
            let now = rec.processed_bytes(text, config);
            &&& once.wf()
            &&& once.end <= now.len()
            &&& once.header(now) == rec.header(text)
            &&& once.bases(now) == rec.bases(text).subrange(
                decided.start as int,
                decided.stop as int,
            )
            &&& once.quals(now) == rec.quals(text).subrange(
                decided.start as int,
                decided.stop as int,
            )
        }),
{
    let decided = rec.decided(text, config);
    let once = rec.processed(text, config);
    let now = rec.processed_bytes(text, config);
    config.lemma_window_bounds(rec.bases(text), rec.quals(text));
    decided.lemma_compacted_byte(text, 0);
    assert forall|j: int| 0 <= j < once.seq_start - once.name_start implies once.header(now)[j]
        == rec.header(text)[j] by {
        decided.lemma_compacted_byte(text, once.name_start + j);
    }
    assert(once.header(now) =~= rec.header(text));
    let kept = decided.stop - decided.start;
    assert forall|j: int| 0 <= j < kept implies once.bases(now)[j] == rec.bases(text).subrange(
        decided.start as int,
        decided.stop as int,
    )[j] && once.quals(now)[j] == rec.quals(text).subrange(
        decided.start as int,
        decided.stop as int,
    )[j] by {
        decided.lemma_compacted_byte(text, once.seq_start + j);
        decided.lemma_compacted_byte(text, once.qual_start + j);
    }
    assert(once.bases(now) =~= rec.bases(text).subrange(decided.start as int, decided.stop as int));
    assert(once.quals(now) =~= rec.quals(text).subrange(decided.start as int, decided.stop as int));
}

/// Trimming a trimmed record again changes neither its locator nor a byte
/// of the buffer, where the kept part of its read is kept whole by a second
/// decision.
pub proof fn lemma_trimmed_record_settled(rec: RecordLocator, text: Seq<u8>, config: &TrimConfig)
    requires
        rec.wf(),
        rec.end <= text.len(),
        ({
            let once = rec.processed(text, config);
            let now = rec.processed_bytes(text, config);
            &&& config.start_spec(once.bases(now), once.quals(now)) == 0
            &&& config.stop_spec(once.bases(now), once.quals(now)) == once.seq_len()
        }),
    ensures
        ({
            let once = rec.processed(text, config);
            let now = rec.processed_bytes(text, config);
            &&& once.processed(now, config) == once
            &&& once.processed_bytes(now, config) == now
        }),
{
    let decided = rec.decided(text, config);
    let once = rec.processed(text, config);
    let now = rec.processed_bytes(text, config);
    config.lemma_window_bounds(rec.bases(text), rec.quals(text));
    decided.lemma_compacted_again(text);
    assert(once.decided(now, config) == once);
}

/// The last base that trimming keeps is a resolved one.
pub proof fn lemma_kept_ends_resolved(config: &TrimConfig, read: Seq<u8>, qual: Seq<u8>)
    ensures
        config.start_spec(read, qual) < config.stop_spec(read, qual) ==> read[config.stop_spec(
            read,
            qual,
        ) - 1] != AMBIGUOUS_BASE,
{
    let quality_stop = qual_trim_spec(qual, config.cut_front as int, config.cut_back as int).1;
    lemma_qual_trim_bounds(qual, config.cut_front as int, config.cut_back as int);
    lemma_n_ends_bounds(read);
    let clean = min_int(quality_stop, n_stop(read));
    config.adapter.lemma_cut_bounds(read, clean);
    let cut = min_int(clean, config.adapter.cut_spec(read, clean));
    let prefix = read.subrange(0, cut);
    lemma_n_ends_bounds(prefix);
    let stop = config.stop_spec(read, qual);
    if config.start_spec(read, qual) < stop {
        assert(!all_ambiguous(prefix));
        assert(prefix[stop - 1] == read[stop - 1]);
    }
}

} // verus!
