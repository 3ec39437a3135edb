//! The source representations that can become a sanitized string.
//!
//! Instead of an open-ended conversion interface, the crate enumerates the
//! representations it accepts — owned text and raw bytes — as one tagged
//! type, each mapped through the same scanning entry point.  Callers
//! holding platform-specific strings convert them to raw bytes first.

use crate::scan::scan_garbage;
use crate::scan::scan_safe;
use crate::scan::scan_spans;
use crate::sstring::SString;
use vstd::prelude::*;
use vstd::utf8::encode_utf8;

verus! {

/// A value that can become a sanitized string: an explicit set of source
/// representations, each carrying the bytes to be scanned.
pub enum SafeString {
    /// Owned text; its UTF-8 encoding is the source byte sequence.
    Text(String),
    /// Raw bytes, exactly as received.
    Bytes(Vec<u8>),
}

impl SafeString {
    /// The byte sequence this source stands for.
    pub open spec fn source_bytes(&self) -> Seq<u8> {
        match self {
            SafeString::Text(s) => encode_utf8(s@),
            SafeString::Bytes(v) => v@,
        }
    }

    /// Scans the source bytes into a fresh sanitized string.
    pub fn into_sstring(self) -> (r: SString)
        ensures
            r.wf(),
            r@.ingested == self.source_bytes(),
            r@.safe == scan_safe(self.source_bytes(), 0),
            r@.garbage == scan_garbage(self.source_bytes(), 0),
            r@.spans == scan_spans(self.source_bytes(), 0).reverse(),
    {
        match self {
            SafeString::Text(s) => SString::new(s.as_str().as_bytes()),
            SafeString::Bytes(v) => SString::new(v.as_slice()),
        }
    }

    /// The safe bytes recoverable from the source: the bytes of its
    /// best-effort string.
    pub fn into_bytes(&self) -> (r: Vec<u8>)
        ensures
            r@ == scan_safe(self.source_bytes(), 0),
    {
        match self {
            SafeString::Text(s) => SString::new(s.as_str().as_bytes()).safe_vec(),
            SafeString::Bytes(v) => SString::new(v.as_slice()).safe_vec(),
        }
    }
}

} // verus!
