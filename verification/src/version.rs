//! Protocol version negotiation: both ends announce a version, the minimum
//! wins, and anything below the supported window is rejected.

use vstd::prelude::*;
use crate::error::RsyncError;

verus! {

/// The oldest protocol revision this engine still speaks.
pub const PROTOCOL_VERSION_MIN: i32 = 27;
/// The newest protocol revision this engine speaks.
pub const PROTOCOL_VERSION_MAX: i32 = 31;

/// A negotiated protocol revision.
#[derive(Debug, Clone, Copy, PartialEq, Eq, Structural)]
pub struct ProtocolVersion {
    pub version: i32,
}

impl ProtocolVersion {
    pub fn new(version: i32) -> (r: Self)
        ensures
            r.version == version,
    {
        Self { version }
    }

    /// Picks `min(local, remote)` and rejects it when that falls below the
    /// supported window.
    pub fn negotiate(local_version: i32, remote_version: i32) -> (r: Result<i32, RsyncError>)
        ensures
            local_version >= PROTOCOL_VERSION_MIN && remote_version >= PROTOCOL_VERSION_MIN
                ==> (r matches Ok(v) && v == if local_version <= remote_version {
                    local_version
                } else {
                    remote_version
                }),
            local_version < PROTOCOL_VERSION_MIN || remote_version < PROTOCOL_VERSION_MIN
                ==> (r matches Err(e) && (e matches RsyncError::IncompatibleProtocol {
                    local, remote } && local == local_version && remote == remote_version)),
    {
        let version: i32 = if local_version < remote_version {
            local_version
        } else {
            remote_version
        };
        if version >= PROTOCOL_VERSION_MIN {
            Ok(version)
        } else {
            Err(RsyncError::IncompatibleProtocol { local: local_version, remote: remote_version })
        }
    }
}

} // verus!
