//! Error taxonomy of the sync engine.

use vstd::prelude::*;

verus! {

/// Every failure the engine can surface.  I/O and checksum failures are
/// file-level (the driver goes on with the next file); pattern, protocol,
/// authentication and configuration failures end the session.
#[derive(Debug)]
pub enum RsyncError {
    /// Underlying filesystem or transport failure, with a description.
    Io(String),
    /// A command-line option that the engine rejects.
    InvalidOption(String),
    /// A malformed filter rule, rejected at load time.
    InvalidPattern(String),
    /// Handshake outside the supported protocol window.
    IncompatibleProtocol { local: i32, remote: i32 },
    /// A path that cannot take part in the session.
    InvalidPath(String),
    /// A bad configuration value or combination.
    Config(String),
    /// Failure reported by the remote side.
    RemoteExec(String),
    /// Authentication failed.
    Auth(String),
    /// Network-level failure.
    Network(String),
    /// Post-reconstruction verification failed for the named file.
    ChecksumMismatch(String),
    /// Bytes that were expected to be UTF-8 text were not.
    Utf8(String),
    /// Anything that fits no other variant.
    Other(String),
    /// An unclassified failure.
    Unknown,
}

} // verus!
