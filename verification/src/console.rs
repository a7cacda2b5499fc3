//! The process's standard streams as a byte source and a byte sink.

use crate::streams::{ByteSink, ByteSource};
use std::io::{Read, Write};
use vstd::prelude::*;

verus! {

/// Reads one byte from standard input with `std::io::Read::read_exact`.
///
/// Nothing is claimed of the result: it is `Some` of the byte where the stream
/// gave one, and `None` at end of input or on a failed read.
#[verifier::external_body]
fn read_stdin_byte() -> (byte: Option<u8>) {
    let mut input = [0u8; 1];
    match std::io::stdin().read_exact(&mut input) {
        Ok(()) => Some(input[0]),
        Err(_) => None,
    }
}

/// Writes one byte to standard output as a single character, with `write!`
/// on `std::io::Stdout`.
///
/// Nothing is claimed of the result: it is `Err` with the failure's text where
/// the write failed.
#[verifier::external_body]
fn write_stdout_byte(byte: u8) -> (written: Result<(), String>) {
    match write!(std::io::stdout(), "{}", byte as char) {
        Ok(()) => Ok(()),
        Err(e) => Err(e.to_string()),
    }
}

/// Flushes standard output with `std::io::Write::flush`.
///
/// Nothing is claimed of the result: it is `Err` with the failure's text where
/// the flush failed.
#[verifier::external_body]
fn flush_stdout() -> (flushed: Result<(), String>) {
    match std::io::stdout().flush() {
        Ok(()) => Ok(()),
        Err(e) => Err(e.to_string()),
    }
}

/// Standard input.
pub struct StandardInput;

/// Standard output, flushed after every byte.
pub struct StandardOutput;

impl ByteSource for StandardInput {
    fn read_one_byte(&mut self) -> (byte: Option<u8>) {
        read_stdin_byte()
    }
}

impl ByteSink for StandardOutput {
    fn write_one_byte(&mut self, byte: u8) -> (flushed: Result<(), String>) {
        match write_stdout_byte(byte) {
            Ok(()) => flush_stdout(),
            Err(text) => Err(text),
        }
    }
}

} // verus!
