//! The faults a trimming run can end in.

use vstd::prelude::*;

verus! {

/// Why a run over a stream of records was given up.
#[derive(Clone, Copy, Debug, PartialEq, Eq, Structural)]
pub enum TrimError {
    /// A record's header line does not begin with the sentinel character.
    MissingSentinel,
    /// A record's separator line holds nothing but its terminator, so the
    /// record cannot be rewritten in place.
    EmptySeparator,
    /// A record's quality line is shorter than its base-call line.
    ShortQuality,
    /// The arena is full and holds no complete record: a record is longer
    /// than the arena's capacity.
    RecordTooLarge,
}

impl TrimError {
    /// A one-line description of the fault.
    pub fn describe(&self) -> (text: &'static str)
        ensures
            text@ == (match *self {
                TrimError::MissingSentinel => "record header does not start with '@'"@,
                TrimError::EmptySeparator => "record separator line is empty"@,
                TrimError::ShortQuality => "record has fewer quality characters than bases"@,
                TrimError::RecordTooLarge => "record does not fit in the buffer"@,
            }),
    {
        match self {
            TrimError::MissingSentinel => "record header does not start with '@'",
            TrimError::EmptySeparator => "record separator line is empty",
            TrimError::ShortQuality => "record has fewer quality characters than bases",
            TrimError::RecordTooLarge => "record does not fit in the buffer",
        }
    }
}

} // verus!
