//! Tools for turning untrusted byte streams into safe UTF-8 text while
//! detecting and capturing possibly malicious bytes.
//!
//! The heart of the crate is the salvage decoder in [`sstring`]: it walks an
//! arbitrary byte buffer, extracts the maximal valid UTF-8 runs, and keeps
//! every invalid byte — together with its exact position — available for
//! forensic inspection.  Nothing is ever silently discarded or reordered.

pub mod errors;
pub mod hex;
pub mod sboolean;
pub mod scan;
pub mod sstring;
pub mod traits;

pub use errors::Error;
pub use errors::ParseFault;
pub use errors::Utf8Fault;
pub use hex::from_hex;
pub use hex::to_hex;
pub use sboolean::SBoolean;
pub use sstring::EvidenceView;
pub use sstring::OnUtf8Error;
pub use sstring::Propagate;
pub use sstring::SString;
pub use traits::SafeString;
