//! The kinds of extensions of a locale.

use vstd::prelude::*;

verus! {

/// Why a locale or a part of it could not be read.
#[derive(Debug, Clone, Copy, PartialEq, Eq, Structural)]
pub enum ParserError {
    /// The language subtag is not valid.
    InvalidLanguage,
    /// A script, region or variant subtag is not valid.
    InvalidSubtag,
    /// An extension is not valid.
    InvalidExtension,
}

/// The kind of an extension, which its first subtag of one letter tells.
#[derive(Debug, Clone, Copy, PartialEq, Eq, Hash, PartialOrd, Ord)]
pub enum ExtensionType {
    /// A transform extension, marked `t`.
    Transform,
    /// A Unicode extension, marked `u`.
    Unicode,
    /// A private use extension, marked `x`.
    Private,
    /// Another extension, marked with any other letter or digit.
    Other(char),
}

/// The lower case form of an ASCII byte.
pub open spec fn ascii_lower(b: u8) -> u8 {
    if 0x41 <= b <= 0x5a {
        (b + 0x20) as u8
    } else {
        b
    }
}

/// Tells whether a lower case byte is an ASCII letter or digit.
pub open spec fn is_lower_alphanumeric(b: u8) -> bool {
    (0x30 <= b <= 0x39) || (0x61 <= b <= 0x7a)
}

impl ExtensionType {
    /// The kind of extension that the marker byte `key` stands for, in
    /// either case: `u`, `t` and `x` for the three kinds that have a name,
    /// any other letter or digit for itself.
    pub fn from_byte(key: u8) -> (r: Result<Self, ParserError>)
        ensures
            r == if ascii_lower(key) == 0x75 {
                Ok::<ExtensionType, ParserError>(ExtensionType::Unicode)
            } else if ascii_lower(key) == 0x74 {
                Ok(ExtensionType::Transform)
            } else if ascii_lower(key) == 0x78 {
                Ok(ExtensionType::Private)
            } else if is_lower_alphanumeric(ascii_lower(key)) {
                Ok(ExtensionType::Other(ascii_lower(key) as char))
            } else {
                Err(ParserError::InvalidExtension)
            },
    {
        let lower: u8 = if 0x41 <= key && key <= 0x5a {
            key + 0x20
        } else {
            key
        };
        if lower == 0x75 {
            Ok(ExtensionType::Unicode)
        } else if lower == 0x74 {
            Ok(ExtensionType::Transform)
        } else if lower == 0x78 {
            Ok(ExtensionType::Private)
        } else if (0x30 <= lower && lower <= 0x39) || (0x61 <= lower && lower <= 0x7a) {
            Ok(ExtensionType::Other(lower as char))
        } else {
            Err(ParserError::InvalidExtension)
        }
    }
}

} // verus!
