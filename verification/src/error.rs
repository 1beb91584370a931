use vstd::prelude::*;

verus! {

/// The closed set of failure reasons the library can report: malformed
/// user-supplied numbers, invalid search configuration, and structurally
/// invalid persisted files.
#[derive(Clone, Copy, Debug, PartialEq, Eq, Structural)]
pub enum ErrorKind {
    /// A number field was empty where digits were required.
    EmptyNumber,
    /// A character that is not a digit of the expected base was found.
    InvalidDigit,
    /// The parsed number does not fit the target integer width.
    NumberTooLarge,
    /// A window string lacked the `:` separator between its two bounds.
    MissingSeparator,
    /// A search was configured with a depth of zero.
    ZeroDepth,
    /// A search was configured with a depth that does not fit the one-byte
    /// per-record level count.
    DepthTooLarge,
    /// A window bound does not fit the fixed per-record offset field.
    WindowTooWide,
    /// A persisted artifact ended before its declared contents.
    Truncated,
    /// A decoded region's bounds are inverted.
    BadRegion,
    /// A record stream's declared width is impossible or disagrees with
    /// the stream's length.
    WidthMismatch,
    /// A record declares a level count of zero or one above the stream's
    /// depth.
    BadRecord,
    /// A persisted cache's addresses are not strictly increasing.
    UnsortedCache,
    /// A record's anchor address lies in none of the catalog's regions.
    NoOwningRegion,
}

/// Error value carried out of every fallible operation of the library.
#[derive(Clone, Copy, Debug, PartialEq, Eq, Structural)]
pub struct Error(pub ErrorKind);

impl Error {
    /// A human-readable description of the failure.
    pub fn message(&self) -> &'static str {
        match self.0 {
            ErrorKind::EmptyNumber => "empty number",
            ErrorKind::InvalidDigit => "invalid digit",
            ErrorKind::NumberTooLarge => "number out of range",
            ErrorKind::MissingSeparator => "missing `:` separator",
            ErrorKind::ZeroDepth => "depth must be at least 1",
            ErrorKind::DepthTooLarge => "depth does not fit one byte",
            ErrorKind::WindowTooWide => "window exceeds the 16-bit offset field",
            ErrorKind::Truncated => "truncated input",
            ErrorKind::BadRegion => "region bounds inverted",
            ErrorKind::WidthMismatch => "record width mismatch",
            ErrorKind::BadRecord => "invalid record level count",
            ErrorKind::UnsortedCache => "cache addresses out of order",
            ErrorKind::NoOwningRegion => "anchor lies in no region",
        }
    }
}

} // verus!
