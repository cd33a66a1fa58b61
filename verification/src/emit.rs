//! The line emitter's rule: what to do when a line could not be written.

use vstd::prelude::*;

verus! {

/// Why a line could not be written to the output.
#[derive(Clone, Copy, Debug, PartialEq, Eq, Structural)]
pub enum WriteFailure {
    /// The reader at the other end of the output has gone away.
    SinkClosed,
    /// Any other failure.
    Other,
}

/// What the emitter does after a failed write.
#[derive(Clone, Copy, Debug, PartialEq, Eq, Structural)]
pub enum Reaction {
    /// End the run at once, as a success: the reader has seen all it wanted.
    Stop,
    /// Report the failure, drop the line and go on with the next one.
    Report,
}

/// A closed sink ends the run quietly; any other failure is reported and
/// costs only the line that could not be written.
pub fn after_failed_write(failure: WriteFailure) -> (reaction: Reaction)
    ensures
        reaction == match failure {
            WriteFailure::SinkClosed => Reaction::Stop,
            WriteFailure::Other => Reaction::Report,
        },
{
    match failure {
        WriteFailure::SinkClosed => Reaction::Stop,
        WriteFailure::Other => Reaction::Report,
    }
}

} // verus!
