//! Bandwidth limiting: a token-bucket account of bytes sent against a
//! configured rate.  The limiter computes how long the caller must pause;
//! the pause itself is the caller's concern.

use vstd::prelude::*;

verus! {

/// Tracks bytes sent against a bytes-per-second cap.
#[derive(Debug, Clone)]
pub struct BandwidthLimiter {
    /// The configured rate, in bytes per second.
    pub limit: u64,
    /// Bytes accounted so far.
    pub bytes_sent: u64,
}

/// The pause owed after `bytes_sent` bytes in `elapsed_ms` milliseconds at
/// `limit` bytes per second: the expected duration of the traffic minus the
/// time already spent, capped below at zero.
pub open spec fn spec_delay_ms(limit: int, bytes_sent: int, elapsed_ms: int) -> int {
    let expected = bytes_sent * 1000 / limit;
    if expected > elapsed_ms {
        expected - elapsed_ms
    } else {
        0
    }
}

impl BandwidthLimiter {
    pub fn new(limit: u64) -> (r: Self)
        ensures
            r.limit == limit,
            r.bytes_sent == 0,
    {
        BandwidthLimiter { limit, bytes_sent: 0 }
    }

    /// Accounts `bytes` more bytes and returns how many milliseconds the
    /// caller must now sleep, given the wall time elapsed since the limiter
    /// was created.
    pub fn limit(&mut self, bytes: u64, elapsed_ms: u64) -> (r: u64)
        requires
            old(self).limit >= 1,
            old(self).bytes_sent + bytes <= u64::MAX,
            old(self).bytes_sent + bytes <= 0xFFFF_FFFF_FFFF,
        ensures
            final(self).limit == old(self).limit,
            final(self).bytes_sent == old(self).bytes_sent + bytes,
            r == spec_delay_ms(
                old(self).limit as int, old(self).bytes_sent + bytes, elapsed_ms as int),
    {
        self.bytes_sent = self.bytes_sent + bytes;
        let expected_ms = self.bytes_sent * 1000 / self.limit;
        if expected_ms > elapsed_ms {
            expected_ms - elapsed_ms
        } else {
            0
        }
    }
}

} // verus!
