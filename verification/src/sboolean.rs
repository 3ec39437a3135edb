//! A boolean decoded from a single wire byte.
//!
//! Binary protocols commonly store a boolean as one byte where 0 means false
//! and 1 means true, while demanding that every non-zero value be read as
//! true.  Values other than 0 and 1 are therefore a covert channel: they
//! carry information that a naive reader never sees.  [`SBoolean`] follows
//! the permissive reading but flags every out-of-range byte as garbage so
//! that it stays inspectable.

use vstd::prelude::*;

verus! {

/// A single byte interpreted as a boolean.  The value 0 is false and every
/// other value is true; values outside {0, 1} are additionally reported by
/// [`SBoolean::garbage`].
#[derive(Clone, Copy, PartialEq, Eq)]
pub struct SBoolean {
    raw: u8,
}

impl View for SBoolean {
    type V = u8;

    closed spec fn view(&self) -> u8 {
        self.raw
    }
}

impl SBoolean {
    /// Wraps a wire byte without losing any information.
    pub fn new(value: u8) -> (r: SBoolean)
        ensures
            r@ == value,
    {
        SBoolean { raw: value }
    }

    /// The boolean reading of the byte: 0 is false, everything else is true.
    pub fn value(&self) -> (b: bool)
        ensures
            b == (self@ != 0),
    {
        self.raw != 0
    }

    /// The anomaly flag: `None` for the two well-formed encodings 0 and 1,
    /// and `Some(byte)` for every other value.
    pub fn garbage(&self) -> (g: Option<u8>)
        ensures
            g == (if self@ == 0 || self@ == 1 {
                Option::<u8>::None
            } else {
                Option::Some(self@)
            }),
    {
        match self.raw {
            0 | 1 => None,
            other => Some(other),
        }
    }
}

} // verus!
