//! The closed set of reasons a [`crate::Properties`] operation can fail.

use vstd::prelude::*;

verus! {

/// Why a `load` (or, for [`PropertiesError::IoFailure`], a `store` whose sink
/// fails) could not complete.
///
/// Every decode error aborts the enclosing `load`; entries inserted before
/// the failing line remain in the mapping.
#[derive(Clone, Copy, Debug, PartialEq, Eq, Structural)]
pub enum PropertiesError {
    /// The underlying byte source or sink reported a failure. The parsing
    /// and encoding routines themselves never produce this value; it exists
    /// for callers that drive them from fallible readers or writers.
    IoFailure,
    /// A `\u` escape held a character outside `[0-9a-fA-F]`.
    InvalidHexDigit,
    /// Fewer than 4 hex digits remained for a `\u` escape.
    /// `in_surrogate_pair` says whether the truncated escape was the
    /// required low half of a surrogate pair, which its message reports
    /// differently.
    TruncatedUnicodeEscape { in_surrogate_pair: bool },
    /// A high surrogate (`\uD800`..`\uDBFF`) was not immediately followed by
    /// another `\u` escape.
    UnpairedHighSurrogate,
    /// The escape after a high surrogate decoded to a value outside the low
    /// surrogate range `[0xDC00, 0xDFFF]`.
    InvalidLowSurrogate,
    /// The decoded bytes of a key or value were not valid UTF-8.
    InvalidTextEncoding,
}

impl PropertiesError {
    /// The diagnostic text shown for this error.
    pub open spec fn message_spec(&self) -> Seq<char> {
        match self {
            PropertiesError::IoFailure => "io error"@,
            PropertiesError::InvalidHexDigit => "parse unicode failed, invalid char"@,
            PropertiesError::TruncatedUnicodeEscape { in_surrogate_pair: false } => {
                "invalid escape unicode, at least 4 bytes"@
            },
            PropertiesError::TruncatedUnicodeEscape { in_surrogate_pair: true } => {
                "invalid surrogates escape unicode, at least 6 bytes"@
            },
            PropertiesError::UnpairedHighSurrogate => "got lead surrogates without trail"@,
            PropertiesError::InvalidLowSurrogate => "invalid trail surrogates"@,
            PropertiesError::InvalidTextEncoding => "invalid utf8 encoding"@,
        }
    }

    /// A human-readable description of the error.
    pub fn message(&self) -> (r: String)
        ensures
            r@ == self.message_spec(),
    {
        match self {
            PropertiesError::IoFailure => "io error".to_owned(),
            PropertiesError::InvalidHexDigit => "parse unicode failed, invalid char".to_owned(),
            PropertiesError::TruncatedUnicodeEscape { in_surrogate_pair: false } => {
                "invalid escape unicode, at least 4 bytes".to_owned()
            },
            PropertiesError::TruncatedUnicodeEscape { in_surrogate_pair: true } => {
                "invalid surrogates escape unicode, at least 6 bytes".to_owned()
            },
            PropertiesError::UnpairedHighSurrogate => {
                "got lead surrogates without trail".to_owned()
            },
            PropertiesError::InvalidLowSurrogate => "invalid trail surrogates".to_owned(),
            PropertiesError::InvalidTextEncoding => "invalid utf8 encoding".to_owned(),
        }
    }
}

} // verus!
