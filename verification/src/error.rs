//! The store's error taxonomy.
//!
//! Every failure an engine operation can report is one of these variants;
//! not-found is deliberately absent, since a missing key is an ordinary
//! `None` result, never an error.

use vstd::prelude::*;
use vstd::string::StringExecFns;

verus! {

/// Errors reported by the codec, the engines and the engine selector.
#[derive(Debug, Clone, Copy, PartialEq, Eq, Structural)]
pub enum EngineError {
    /// A key longer than 255 bytes cannot be carried by the one-byte
    /// length prefix; encoding it would corrupt the log.
    KeyTooLong,
    /// A value longer than 65535 bytes cannot be carried by the two-byte
    /// length prefix; encoding it would corrupt the log.
    ValueTooLong,
    /// The log's bytes do not decode as a sequence of records: a declared
    /// length runs past the end of the file, a tombstone flag holds a
    /// value other than 0 or 1, or a stored key or value is not UTF-8.
    CorruptLog,
    /// The file's version byte names an encoding this build does not know.
    UnsupportedVersion { version: u8 },
    /// The file's version byte names an encoding that is reserved but has
    /// no implementation; refusing it loudly beats guessing a format.
    UnimplementedEngine { version: u8 },
}

impl EngineError {
    /// A short, stable description of the error, for callers that print.
    pub fn message(&self) -> (r: String)
        ensures
            r@ == self.spec_message(),
    {
        match self {
            EngineError::KeyTooLong => String::from_str("key too long (max 255 bytes)"),
            EngineError::ValueTooLong => String::from_str("value too long (max 65535 bytes)"),
            EngineError::CorruptLog => String::from_str("corrupt log"),
            EngineError::UnsupportedVersion { .. } => String::from_str("unsupported encoding version"),
            EngineError::UnimplementedEngine { .. } => String::from_str("engine not implemented for this encoding version"),
        }
    }

    /// What `message` returns for each variant.
    pub open spec fn spec_message(self) -> Seq<char> {
        match self {
            EngineError::KeyTooLong => "key too long (max 255 bytes)"@,
            EngineError::ValueTooLong => "value too long (max 65535 bytes)"@,
            EngineError::CorruptLog => "corrupt log"@,
            EngineError::UnsupportedVersion { .. } => "unsupported encoding version"@,
            EngineError::UnimplementedEngine { .. } => "engine not implemented for this encoding version"@,
        }
    }
}

} // verus!
