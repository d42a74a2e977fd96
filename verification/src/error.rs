//! The errors of identifier parsing.

use vstd::prelude::*;

verus! {

/// Why a hexadecimal string could not be read as an identifier.
#[derive(Debug, PartialEq, Eq, Clone, Copy, Structural)]
pub enum GuidError {
    /// A character that is not a hexadecimal digit was met.
    HexFormatInvalid,
    /// The string held no characters at all.
    HexFormatEmpty,
}

impl GuidError {
    /// The message that belongs to each error, as a sequence of characters.
    pub open spec fn spec_message(self) -> Seq<char> {
        match self {
            GuidError::HexFormatInvalid =>
                "Invalid hex format, a GUID can only be constructed from a pure hex string"@,
            GuidError::HexFormatEmpty =>
                "Invalid hex format, a GUID cannot be constructed from an empty string"@,
        }
    }

    /// The fixed, human-readable message of this error.
    pub fn message(&self) -> (text: &'static str)
        ensures
            text@ == self.spec_message(),
    {
        match self {
            GuidError::HexFormatInvalid =>
                "Invalid hex format, a GUID can only be constructed from a pure hex string",
            GuidError::HexFormatEmpty =>
                "Invalid hex format, a GUID cannot be constructed from an empty string",
        }
    }
}

} // verus!
