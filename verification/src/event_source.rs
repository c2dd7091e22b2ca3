//! Reading the events of the engine one by one.

use vstd::prelude::*;

verus! {

/// What a channel of events gave.
#[derive(Clone, Copy, Debug, PartialEq, Eq, Structural)]
pub enum RecvOutcome {
    /// An event.
    Received,
    /// There will be no more events.
    Closed,
    /// This many events were missed.
    Lagged(u64),
}

/// What a reader does next.
#[derive(Clone, Copy, Debug, PartialEq, Eq, Structural)]
pub enum SourceStep {
    /// The event is handed out.
    Deliver,
    /// The channel is read once more.
    ReadAgain,
    /// There is no event.
    End,
}

/// What a reader does next. One that missed events reads once more and hands out the first event
/// that is still there; it does not do so twice in a row.
pub fn next_step(read_again: bool, outcome: RecvOutcome) -> (r: SourceStep)
    ensures
        r == match outcome {
            RecvOutcome::Received => SourceStep::Deliver,
            RecvOutcome::Closed => SourceStep::End,
            RecvOutcome::Lagged(_) => if read_again {
                SourceStep::End
            } else {
                SourceStep::ReadAgain
            },
        },
{
    match outcome {
        RecvOutcome::Received => SourceStep::Deliver,
        RecvOutcome::Closed => SourceStep::End,
        RecvOutcome::Lagged(_) => if read_again {
            SourceStep::End
        } else {
            SourceStep::ReadAgain
        },
    }
}

} // verus!
