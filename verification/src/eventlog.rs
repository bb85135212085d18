//! The event log's size cap: once the live file holds the cap or more, the
//! next append first moves it aside (to `.log.1`) and starts a fresh file.

use vstd::prelude::*;

verus! {

/// Soft cap on one event log file: 64 MiB.
pub const MAX_LOG_BYTES: u64 = 64 * 1024 * 1024;

/// How many bytes the live log file holds.
pub struct LogMeter {
    pub written: u64,
}

impl LogMeter {
    /// A meter for a file that already holds `written` bytes.
    pub fn new(written: u64) -> (r: Self)
        ensures
            r.written == written,
    {
        LogMeter { written }
    }

    /// Whether the next append rotates the file first.
    pub fn rotation_due(&self) -> (r: bool)
        ensures
            r == (self.written >= MAX_LOG_BYTES),
    {
        self.written >= MAX_LOG_BYTES
    }

    /// The file was rotated: the live file is empty.
    pub fn rotated(&mut self)
        ensures
            final(self).written == 0,
    {
        self.written = 0;
    }

    /// A line of `len` bytes and its newline were appended.
    pub fn appended(&mut self, len: u64)
        requires
            old(self).written + len + 1 <= u64::MAX,
        ensures
            final(self).written == old(self).written + len + 1,
    {
        self.written = self.written + len + 1;
    }
}

} // verus!
