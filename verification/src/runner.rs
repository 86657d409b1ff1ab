//! What the scanner learns from the machine it runs on: command outputs and
//! directory listings.
use vstd::prelude::*;

verus! {

/// What a command printed, and how it exited.
#[derive(Debug)]
pub struct CommandOutput {
    /// The exit code, where the command exited with one.
    pub exit_code: Option<i32>,
    pub stdout: String,
    pub stderr: String,
}

/// One entry of a directory listing.
#[derive(Debug)]
pub struct DirectoryEntry {
    /// The entry's path, as the bytes that the operating system gives for it.
    pub path: Vec<u8>,
    pub is_dir: bool,
}

/// Runs the scan's reads and commands on the local machine.
pub struct LocalRunner;

} // verus!
