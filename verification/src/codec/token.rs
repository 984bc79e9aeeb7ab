//! Token identifiers.
//!
//! A token is an unsigned integer naming one vocabulary entry. The ids
//! `0..=255` are reserved for the 256 single-byte rules; composite rules
//! receive strictly increasing ids starting at 256, in installation order.

use vstd::prelude::*;

verus! {

/// An opaque integer identifier for a vocabulary entry.
#[derive(Debug, Hash, Eq, PartialEq, PartialOrd, Ord, Clone, Copy, Structural)]
pub struct Token(pub u32);

impl Token {
    /// The byte a base token stands for, or `None` for a composite token id.
    pub fn as_byte(self) -> (r: Option<u8>)
        ensures
            r == (if self.0 <= 255 {
                Some(self.0 as u8)
            } else {
                None::<u8>
            }),
    {
        if self.0 <= 255 {
            Some(self.0 as u8)
        } else {
            None
        }
    }
}

impl From<u32> for Token {
    fn from(input: u32) -> (r: Self) {
        Token(input)
    }
}

impl vstd::std_specs::convert::FromSpecImpl<u32> for Token {
    open spec fn obeys_from_spec() -> bool {
        true
    }

    open spec fn from_spec(input: u32) -> Token {
        Token(input)
    }
}

impl From<u8> for Token {
    fn from(input: u8) -> (r: Self) {
        Token(input as u32)
    }
}

impl vstd::std_specs::convert::FromSpecImpl<u8> for Token {
    open spec fn obeys_from_spec() -> bool {
        true
    }

    open spec fn from_spec(input: u8) -> Token {
        Token(input as u32)
    }
}

} // verus!
