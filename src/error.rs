use vstd::prelude::*;

verus! {

/// Failure kinds of the archive engine.
#[derive(Debug, Clone, PartialEq, Eq)]
pub enum PakError {
    /// An underlying filesystem or I/O failure, with its message.
    Io(String),
    /// A structural violation of the format.
    Invalid(String),
    /// A scanned path could not be made relative to the input root.
    Outside(String),
    /// Compression was requested but is not available.
    NoZstd,
}

/// Result type of the archive engine.
pub type PakResult<T> = Result<T, PakError>;

/// True when `r` is an `Invalid` error whose message is `msg`.
pub open spec fn is_invalid<T>(r: PakResult<T>, msg: Seq<char>) -> bool {
    r matches Err(PakError::Invalid(m)) && m@ == msg
}

/// The human-readable text of an error.
pub open spec fn error_text(e: PakError) -> Seq<char> {
    match e {
        PakError::Io(m) => "io: "@ + m@,
        PakError::Invalid(m) => "invalid pak: "@ + m@,
        PakError::Outside(m) => "path is outside input dir: "@ + m@,
        PakError::NoZstd => "compression requested but nepak was built without zstd feature"@,
    }
}

impl PakError {
    /// The human-readable text of this error.
    pub fn message(&self) -> (r: String)
        ensures
            r@ == error_text(*self),
    {
        match self {
            PakError::Io(m) => String::from_str("io: ").concat(m.as_str()),
            PakError::Invalid(m) => String::from_str("invalid pak: ").concat(m.as_str()),
            PakError::Outside(m) => String::from_str("path is outside input dir: ").concat(m.as_str()),
            PakError::NoZstd => String::from_str(
                "compression requested but nepak was built without zstd feature",
            ),
        }
    }
}

} // verus!
