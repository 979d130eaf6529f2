use vstd::prelude::*;

verus! {

/// Why a decode failed. Any failure aborts the whole decode at once: no
/// partial pool is ever returned, and nothing is retried.
#[derive(Debug, Clone, Copy, PartialEq, Eq, Structural)]
pub enum ParseError {
    /// The stream could not supply the requested bytes.
    UnexpectedEof,
    /// The pool declares style spans, which this decoder does not support.
    NonZeroStyleCount,
    /// A string length prefix has its high bit set: the extended length
    /// form is not supported.
    UnsupportedExtendedLength,
    /// The raw bytes of a string are not valid UTF-8.
    InvalidUtf8,
    /// The code units of a string are not valid UTF-16.
    InvalidUtf16,
    /// A declared region offset or the declared chunk size lies inside the
    /// fixed header, so the region arithmetic has no meaning.
    InvalidLayout,
}

} // verus!
