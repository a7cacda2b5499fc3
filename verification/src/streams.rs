//! The two streams that a run talks to, one byte at a time.
//!
//! The interpreter asks nothing of a stream but an answer: whatever a source
//! gives is stored, whatever a sink answers ends the run or does not.

use vstd::prelude::*;

verus! {

/// A source of input bytes.
pub trait ByteSource {
    /// Takes the next byte; `None` at end of input or where reading failed.
    fn read_one_byte(&mut self) -> (byte: Option<u8>);
}

/// A sink for output bytes.
pub trait ByteSink {
    /// Writes `byte` and flushes it downstream; `Err` with the failure's text
    /// where that could not be done.
    fn write_one_byte(&mut self, byte: u8) -> (flushed: Result<(), String>);
}

} // verus!
