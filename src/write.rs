//! The deadlock-safe diagnostic writer.
//!
//! Reports of broken internal invariants go through a raw, non-buffering,
//! non-allocating write to a file descriptor, never through formatted output.
use vstd::prelude::*;

verus! {

/// The file descriptor of the process's error stream.
pub const STDERR_FD: i32 = 2;

/// A direct writer to a file descriptor.
pub struct Writer {
    fd: i32,
}

impl Writer {
    /// The file descriptor written to.
    pub closed spec fn descriptor(self) -> i32 {
        self.fd
    }

    /// A writer to the standard error stream.
    pub fn stderr() -> (r: Writer)
        ensures
            r.descriptor() == STDERR_FD,
    {
        Writer { fd: STDERR_FD }
    }

    /// The file descriptor written to.
    pub fn fd(&self) -> (r: i32)
        ensures
            r == self.descriptor(),
    {
        self.fd
    }
}

} // verus!
