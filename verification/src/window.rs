//! The trimming decision: which half-open window of a read's bases is kept,
//! from base quality, ambiguous bases and adapter similarity together.

use vstd::prelude::*;
use crate::adapter::AdapterSpec;
use crate::ambiguous::{lemma_n_ends_bounds, n_start, n_stop, trim_n_ends};
use crate::quality::{lemma_qual_trim_bounds, qual_trim, qual_trim_spec};

verus! {

/// What a trimming run is configured with: the adapter and how it is
/// matched, and the quality cutoffs for the two ends of a read. A front
/// cutoff that is not positive leaves the front untrimmed by quality.
pub struct TrimConfig {
    pub adapter: AdapterSpec,
    pub cut_front: i32,
    pub cut_back: i32,
}

/// The lesser of two integers.
pub open spec fn min_int(a: int, b: int) -> int {
    if a <= b {
        a
    } else {
        b
    }
}

/// The greater of two integers.
pub open spec fn max_int(a: int, b: int) -> int {
    if a >= b {
        a
    } else {
        b
    }
}

impl TrimConfig {
    /// The adapter's matching policy belongs to the adapter.
    pub open spec fn wf(&self) -> bool {
        self.adapter.wf()
    }

    /// Where the kept window stops. The quality cut and the ambiguous-base
    /// cut bound the stretch in which the adapter is looked for; the
    /// adapter cut shortens it; ambiguous bases laid bare at the new end
    /// are dropped as well.
    pub open spec fn stop_spec(&self, read: Seq<u8>, qual: Seq<u8>) -> int {
        let quality_stop = qual_trim_spec(qual, self.cut_front as int, self.cut_back as int).1;
        let clean = min_int(quality_stop, n_stop(read));
        let cut = min_int(clean, self.adapter.cut_spec(read, clean));
        min_int(cut, n_stop(read.subrange(0, cut)))
    }

    /// Where the kept window starts: past the quality cut and the leading
    /// ambiguous bases, but never past its stop.
    pub open spec fn start_spec(&self, read: Seq<u8>, qual: Seq<u8>) -> int {
        let quality_start = qual_trim_spec(qual, self.cut_front as int, self.cut_back as int).0;
        min_int(max_int(quality_start, n_start(read)), self.stop_spec(read, qual))
    }

    /// The kept window is in order and within both the bases and the
    /// quality characters.
    pub proof fn lemma_window_bounds(&self, read: Seq<u8>, qual: Seq<u8>)
        ensures
            0 <= self.start_spec(read, qual) <= self.stop_spec(read, qual),
            self.stop_spec(read, qual) <= read.len(),
            self.stop_spec(read, qual) <= qual.len(),
    {
        lemma_qual_trim_bounds(qual, self.cut_front as int, self.cut_back as int);
        lemma_n_ends_bounds(read);
        let quality_stop = qual_trim_spec(qual, self.cut_front as int, self.cut_back as int).1;
        let clean = min_int(quality_stop, n_stop(read));
        self.adapter.lemma_cut_bounds(read, clean);
        let cut = min_int(clean, self.adapter.cut_spec(read, clean));
        lemma_n_ends_bounds(read.subrange(0, cut));
    }

    /// Computes the window `[start, stop)` of bases to keep, given the
    /// base calls of a read and their quality characters.
    pub fn trim_window(&self, read: &[u8], qual: &[u8]) -> (window: (usize, usize))
        requires
            self.wf(),
        ensures
            window.0 as int == self.start_spec(read@, qual@),
            window.1 as int == self.stop_spec(read@, qual@),
            window.0 <= window.1,
            window.1 <= read@.len(),
            window.1 <= qual@.len(),
    {
        let (qstart, qstop) = qual_trim(qual, self.cut_front, self.cut_back);
        let (nstart, nstop) = trim_n_ends(read);
        let clean = if qstop <= nstop {
            qstop
        } else {
            nstop
        };
        let adapter_start = self.adapter.find(read, clean);
        let cut = if clean <= adapter_start {
            clean
        } else {
            adapter_start
        };
        let (_, exposed) = trim_n_ends(vstd::slice::slice_subrange(read, 0, cut));
        let stop = if cut <= exposed {
            cut
        } else {
            exposed
        };
        let front = if qstart >= nstart {
            qstart
        } else {
            nstart
        };
        let start = if front <= stop {
            front
        } else {
            stop
        };
        (start, stop)
    }
}

} // verus!
