use vstd::prelude::*;

verus! {

#[verifier::external_type_specification]
#[verifier::external_body]
pub struct ExIoError(std::io::Error);

/// The store's failures.
pub enum TError {
    /// The file system or the operating system failed.
    IO(std::io::Error),
    /// A record's bytes do not decode.
    Codec,
    /// `remove` was asked for a key that has no value.
    NonExistentKey,
    /// A record has a shape that its place does not allow.
    FaultyCommandInLog,
    /// A log position or a generation number would leave the range of `u64`.
    LogFull,
}

impl TError {
    /// Text that describes the failure.
    pub fn message(&self) -> (r: String)
        ensures
            self is IO ==> r@ == "Error in IO"@,
            self is Codec ==> r@ == "Error decoding a log record"@,
            self is NonExistentKey ==> r@ == "Key not found"@,
            self is FaultyCommandInLog ==> r@ == "Error reading log file"@,
            self is LogFull ==> r@ == "Log position out of range"@,
    {
        match self {
            TError::IO(_) => String::from_str("Error in IO"),
            TError::Codec => String::from_str("Error decoding a log record"),
            TError::NonExistentKey => String::from_str("Key not found"),
            TError::FaultyCommandInLog => String::from_str("Error reading log file"),
            TError::LogFull => String::from_str("Log position out of range"),
        }
    }
}

} // verus!
