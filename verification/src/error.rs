//! The conditions that end a run.

use vstd::prelude::*;

verus! {

/// Why input was refused. Each of these is fatal for the run: no partial
/// result is to be reported after it.
#[derive(Clone, Copy, Debug, PartialEq, Eq, Structural)]
pub enum Error {
    /// A line holds no field separator.
    MalformedRecord,
    /// The text after the first field separator of a line is not a value.
    MalformedValue,
    /// More bytes than the cursor's window allows were read without a line
    /// terminator, and the stream has not ended.
    ChunkAlignmentFailure,
}

} // verus!
