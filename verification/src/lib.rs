//! A streaming trimmer for short-read sequencing records.
//!
//! Records of four lines (header, base calls, separator, quality) pass
//! through a byte arena of fixed capacity. Each complete record in the
//! arena is located without copying, the window of its bases worth keeping
//! is decided from base quality, ambiguous bases and similarity to an
//! adapter, and the record is rewritten in place to that window.
//!
//! Every function here but the one that calls into rayon is verified
//! against a contract over sequences of bytes:
//!
//! - [`quality`], [`ambiguous`] and [`adapter`] hold the three signals;
//! - [`window`] combines them into the trimming decision;
//! - [`record`] holds record locators and the in-place rewriting;
//! - [`scan`] says where records lie in a text of bytes, and [`arena`]
//!   holds the arena with the scanner that finds them;
//! - [`engine`] trims and writes out a batch of records;
//! - [`stream`] runs a whole stream through an arena, and says what comes
//!   out of it;
//! - [`laws`] states what holds of the decision for every read, and
//!   [`settled`] when a second run changes nothing.
//!
//! Reading from a source and writing to a sink are left to the caller:
//! [`arena::Arena`] hands out the part of the arena that a read fills, and
//! the bytes of each record to write. A batch is trimmed on one thread by
//! [`engine::process_batch`] or, through rayon, on the worker threads of
//! the current pool by [`engine::process_batch_in_parallel`]; the two are
//! proved to come to the same.

pub mod adapter;
pub mod ambiguous;
pub mod arena;
pub mod engine;
pub mod error;
pub mod laws;
pub mod quality;
pub mod record;
pub mod scan;
pub mod settled;
pub mod stream;
pub mod text;
pub mod window;
