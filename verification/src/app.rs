//! The run as a whole: which part follows which, and how it ends.

use vstd::prelude::*;
use crate::error::AppError;

verus! {

/// The parts of a run, in their order.
#[derive(Debug, Clone, Copy, PartialEq, Eq, Structural)]
pub enum Stage {
    /// The greeting.
    Hello,
    /// The dialog in which entries are added.
    AddEntry,
    /// The listing.
    ViewList,
    /// The run is over.
    Done,
}

impl Stage {
    /// The part that follows.
    pub open spec fn following(self) -> Stage {
        match self {
            Stage::Hello => Stage::AddEntry,
            Stage::AddEntry => Stage::ViewList,
            Stage::ViewList => Stage::Done,
            Stage::Done => Stage::Done,
        }
    }
}

/// The planner.
#[derive(Debug)]
pub struct App;

impl App {
    /// The part with which a run begins.
    pub fn start() -> (stage: Stage)
        ensures
            stage == Stage::Hello,
    {
        Stage::Hello
    }

    /// Takes the part that has just ended and how it ended, and gives the
    /// part to go on with and what is to be told to the user. A part that
    /// ended well is followed by the next. An error of the planner ends the
    /// run, in good order, with the line that reports it.
    pub fn run(stage: Stage, outcome: Result<(), AppError>) -> (next: (Stage, Option<String>))
        ensures
            match outcome {
                Ok(_) => next.0 == stage.following() && next.1 is None,
                Err(error) => {
                    &&& next.0 == Stage::Done
                    &&& next.1 matches Some(line)
                    &&& line@ == error.report_text()
                },
            },
    {
        match outcome {
            Ok(_) => {
                let following = match stage {
                    Stage::Hello => Stage::AddEntry,
                    Stage::AddEntry => Stage::ViewList,
                    Stage::ViewList => Stage::Done,
                    Stage::Done => Stage::Done,
                };
                (following, None)
            },
            Err(error) => (Stage::Done, Some(error.report())),
        }
    }
}

} // verus!
