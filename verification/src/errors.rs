//! Error values shared across the crate.
//!
//! Every failure carries enough structured evidence (byte payloads, span
//! lists, fault positions) for a caller to diagnose the problem without
//! re-running the decoder.  Human-readable rendering is left to callers.

use vstd::prelude::*;

verus! {

/// Where and how a byte buffer stopped being valid UTF-8.
///
/// `valid_up_to` is the length of the longest prefix that decodes as whole
/// UTF-8 characters.  `error_len` is `Some(n)` when the `n` bytes starting
/// at `valid_up_to` form an invalid run, and `None` when the buffer ends in
/// a truncated multi-byte sequence that could still be completed by more
/// input.
#[derive(Clone, Copy, Debug, PartialEq, Eq)]
pub struct Utf8Fault {
    pub valid_up_to: usize,
    pub error_len: Option<usize>,
}

/// Why a hexadecimal string was rejected.
#[derive(Clone, Copy, Debug, PartialEq, Eq)]
pub enum ParseFault {
    /// The input string was empty.
    Empty,
    /// A character other than a hex digit was found; `pos` is its 1-based
    /// position counted after any `0x`/`x` prefix.
    InvalidChar { pos: usize, ch: char },
}

/// The error surface of the crate.
#[derive(Clone, Debug, PartialEq)]
pub enum Error {
    /// The ingested bytes were not entirely valid UTF-8 and invalid bytes
    /// were accumulated: carries the safe bytes and the garbage bytes.
    UnsafeString(Vec<u8>, Vec<u8>),
    /// The ingested bytes failed whole-buffer validation although no
    /// garbage was separately recorded; carries the low-level fault and
    /// all four evidence sequences (garbage, spans, ingested, safe) for
    /// forensic dumping.
    InvalidUtf8(Utf8Fault, Vec<u8>, Vec<(usize, usize)>, Vec<u8>, Vec<u8>),
    /// A hexadecimal string could not be parsed.
    ParseError(ParseFault),
}

} // verus!
