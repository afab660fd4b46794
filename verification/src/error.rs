//! The error taxonomy of the synchronization engine.

use vstd::prelude::*;

verus! {

/// What can go wrong while loading, rewriting or watching target files.
#[derive(Clone, Copy, PartialEq, Eq, Structural, Debug)]
pub enum SyncError {
    /// The target file's extension names no supported format.
    UnsupportedFormat,
    /// The target file's content could not be parsed or re-serialized.
    ParseError,
    /// A read or write failed.
    IoError,
    /// A filesystem watch could not be registered.
    WatchSetup,
    /// No target file is configured.
    NoTargetFiles,
}

/// The wording used for each error.
pub open spec fn error_message_spec(e: SyncError) -> Seq<char> {
    match e {
        SyncError::UnsupportedFormat => "unsupported file format"@,
        SyncError::ParseError => "failed to parse file content"@,
        SyncError::IoError => "read or write failed"@,
        SyncError::WatchSetup => "could not register filesystem watch"@,
        SyncError::NoTargetFiles => "no target files configured"@,
    }
}

impl SyncError {
    /// A human-readable description of the error.
    pub fn message(&self) -> (r: String)
        ensures
            r@ == error_message_spec(*self),
    {
        match self {
            SyncError::UnsupportedFormat => String::from_str("unsupported file format"),
            SyncError::ParseError => String::from_str("failed to parse file content"),
            SyncError::IoError => String::from_str("read or write failed"),
            SyncError::WatchSetup => String::from_str("could not register filesystem watch"),
            SyncError::NoTargetFiles => String::from_str("no target files configured"),
        }
    }
}

} // verus!
