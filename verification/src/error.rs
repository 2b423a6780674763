use vstd::prelude::*;
use vstd::string::StringExecFns;

verus! {

/// The error taxonomy of the library.
///
/// - `Custom` carries a caller-supplied message.
/// - `EncodeError` / `DecodeError` report a serialization failure.
/// - `SledError` reports a fault of the embedded store.
/// - `InvalidSledKeyFormat` reports a malformed key found while
///   recovering the persistent buffer's counters.
/// - `MutexError` reports a buffer guard that was abnormally released
///   while held.
#[derive(Debug, PartialEq, Eq)]
pub enum Error {
    Custom(String),
    EncodeError(String),
    DecodeError(String),
    SledError(String),
    InvalidSledKeyFormat,
    MutexError,
}

impl Error {
    /// The human-readable text of this error.
    pub open spec fn message_spec(&self) -> Seq<char> {
        match self {
            Error::Custom(m) => "Custom error: "@ + m@,
            Error::EncodeError(m) => "Encode error: "@ + m@,
            Error::DecodeError(m) => "Decode error: "@ + m@,
            Error::SledError(m) => "Sled error: "@ + m@,
            Error::InvalidSledKeyFormat => "Invalid key format"@,
            Error::MutexError => "Failed to acquire mutex lock"@,
        }
    }

    /// Render this error as text.
    pub fn message(&self) -> (r: String)
        ensures
            r@ == self.message_spec(),
    {
        match self {
            Error::Custom(m) => String::from_str("Custom error: ").concat(m.as_str()),
            Error::EncodeError(m) => String::from_str("Encode error: ").concat(m.as_str()),
            Error::DecodeError(m) => String::from_str("Decode error: ").concat(m.as_str()),
            Error::SledError(m) => String::from_str("Sled error: ").concat(m.as_str()),
            Error::InvalidSledKeyFormat => String::from_str("Invalid key format"),
            Error::MutexError => String::from_str("Failed to acquire mutex lock"),
        }
    }
}

/// Wrap a caller-supplied error message as a buffer error.
pub fn make_custom_error(message: String) -> (r: Error)
    ensures
        r == Error::Custom(message),
{
    Error::Custom(message)
}

} // verus!
