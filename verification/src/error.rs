//! What can go wrong when a record is taken from a directory.

use vstd::prelude::*;

verus! {

/// Why no envelope could be had from a directory entry.
#[derive(Clone, Copy, Debug, PartialEq, Eq, Structural)]
pub enum Error {
    /// The entry, or the content behind it, could not be read.
    Io,
    /// The content was read, and it is the record of no envelope.
    Parse,
}

} // verus!
