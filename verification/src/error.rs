//! Errors surfaced by the archive's core.

use vstd::prelude::*;

verus! {

/// Every failure the core can report. Process and I/O work happens outside
/// this crate; the shell maps what it sees onto these variants before the
/// core decides anything from them.
#[derive(Debug)]
pub enum Error {
    /// The retry file was absent and creating a fresh archive was not allowed.
    RetriesFileMissing,
    /// A non-blank retry line whose trimmed length is not 40.
    BadRetryHash { line: Vec<u8> },
    /// A non-blank broken-commit log line without the `:` separator.
    MalformedBrokenLine { line: Vec<u8> },
    /// A filename in the results directory that does not carry the store's
    /// format.
    MalformedFilename { name: Vec<u8> },
    /// No stored result file exists for the requested key.
    ResultFileMissing,
    /// A stored result file that does not decode as a result document.
    MalformedResultFile,
    /// The external tool could not be started.
    SpawnFailed,
    /// The external tool exited with a non-zero status.
    CommandFailed,
    /// Waiting on the external tool failed.
    WaitFailed,
    /// Every attempt at running the external tool overran its time budget.
    TimedOutTooManyTimes,
}

impl Error {
    /// A short description, usable by an unverified shell for diagnostics.
    pub fn describe(&self) -> (r: &'static str)
        ensures
            r@.len() > 0,
    {
        let r: &'static str = match self {
            Error::RetriesFileMissing => "retries file not present",
            Error::BadRetryHash { .. } => "bad retry hash",
            Error::MalformedBrokenLine { .. } => "malformed broken-commits-log line",
            Error::MalformedFilename { .. } => "malformed result filename",
            Error::ResultFileMissing => "result file not found",
            Error::MalformedResultFile => "failed to decode result file",
            Error::SpawnFailed => "could not spawn command",
            Error::CommandFailed => "command failed",
            Error::WaitFailed => "command failed to report its status",
            Error::TimedOutTooManyTimes => "failed to run command, timed out too many times",
        };
        proof {
            reveal_strlit("retries file not present");
            reveal_strlit("bad retry hash");
            reveal_strlit("malformed broken-commits-log line");
            reveal_strlit("malformed result filename");
            reveal_strlit("result file not found");
            reveal_strlit("failed to decode result file");
            reveal_strlit("could not spawn command");
            reveal_strlit("command failed");
            reveal_strlit("command failed to report its status");
            reveal_strlit("failed to run command, timed out too many times");
        }
        r
    }
}

} // verus!
