//! What can go wrong when a stream is decoded.

use vstd::prelude::*;

verus! {

/// The two kinds of failure of a decode.
#[derive(Clone, Copy, Debug, PartialEq, Eq, Structural)]
pub enum ErrorKind {
    /// The header is malformed.
    Format,
    /// The coded body ends before the end-of-stream symbol is reached.
    CorruptStream,
}

/// The precise reason why a stream was refused.
#[derive(Clone, Copy, Debug, PartialEq, Eq, Structural)]
pub enum Fault {
    /// The input is shorter than the magic marker and the table length.
    InputTooShort,
    /// The input does not start with the magic marker.
    BadMagic,
    /// The declared table length is zero or over `MAX_TABLE_LEN`.
    BadSymbolCount,
    /// The input ends before the declared number of counts.
    TruncatedFrequencies,
    /// The table is well formed but not over the coder's 257 symbols.
    UnexpectedSymbolCount,
    /// The body is used up, or cannot code the end-of-stream symbol at all,
    /// and the end-of-stream symbol has not been reached.
    MissingEndOfStream,
}

/// The error of a failed decode.
#[derive(Clone, Copy, Debug, PartialEq, Eq, Structural)]
pub struct RangeError(pub Fault);

/// The kind of failure that a fault belongs to.
pub open spec fn kind_of(fault: Fault) -> ErrorKind {
    match fault {
        Fault::MissingEndOfStream => ErrorKind::CorruptStream,
        _ => ErrorKind::Format,
    }
}

/// The text that describes a fault.
pub open spec fn text_of(fault: Fault) -> Seq<char> {
    match fault {
        Fault::InputTooShort => "range: input too short"@,
        Fault::BadMagic => "range: bad magic"@,
        Fault::BadSymbolCount => "range: bad symbol count"@,
        Fault::TruncatedFrequencies => "range: truncated frequencies"@,
        Fault::UnexpectedSymbolCount => "range: unexpected symbol count"@,
        Fault::MissingEndOfStream => "range: end of stream not reached"@,
    }
}

impl RangeError {
    /// The kind of this failure: a malformed header, or a corrupt body.
    pub fn kind(&self) -> (kind: ErrorKind)
        ensures
            kind == kind_of(self.0),
    {
        match self.0 {
            Fault::MissingEndOfStream => ErrorKind::CorruptStream,
            _ => ErrorKind::Format,
        }
    }

    /// A description of this failure.
    pub fn message(&self) -> (text: &'static str)
        ensures
            text@ == text_of(self.0),
    {
        match self.0 {
            Fault::InputTooShort => "range: input too short",
            Fault::BadMagic => "range: bad magic",
            Fault::BadSymbolCount => "range: bad symbol count",
            Fault::TruncatedFrequencies => "range: truncated frequencies",
            Fault::UnexpectedSymbolCount => "range: unexpected symbol count",
            Fault::MissingEndOfStream => "range: end of stream not reached",
        }
    }
}

} // verus!
