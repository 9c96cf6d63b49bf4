//! What ends an entry before it is complete.

use vstd::prelude::*;
use vstd::string::StringExecFns;

verus! {

/// The reasons for which the planner gives up on what the user typed.
#[derive(Debug)]
pub enum AppError {
    /// The user answered with an empty line: no more entries are wanted.
    Exit,
    /// The input is refused, with the words that say why.
    Msg(&'static str),
}

/// The words with which a time is refused.
pub open spec fn invalid_time_text() -> Seq<char> {
    "Invalid time."@
}

impl AppError {
    /// The words of the error.
    pub open spec fn text(self) -> Seq<char> {
        match self {
            AppError::Exit => "Выход"@,
            AppError::Msg(words) => words@,
        }
    }

    /// The error is the refusal of a time.
    pub open spec fn is_invalid_time(self) -> bool {
        self matches AppError::Msg(words) && words@ == invalid_time_text()
    }

    /// The line that tells the user of the error.
    pub open spec fn report_text(self) -> Seq<char> {
        "Error: "@ + self.text() + "\n"@
    }

    /// The refusal of a time.
    pub fn invalid_time() -> (error: AppError)
        ensures
            error.is_invalid_time(),
    {
        AppError::Msg("Invalid time.")
    }

    /// The words of the error.
    pub fn to_string(&self) -> (words: String)
        ensures
            words@ == self.text(),
    {
        match self {
            AppError::Exit => "Выход".to_owned(),
            AppError::Msg(words) => (*words).to_owned(),
        }
    }

    /// The line that tells the user of the error: `Error: `, the words of
    /// the error, and a line break.
    pub fn report(&self) -> (line: String)
        ensures
            line@ == self.report_text(),
    {
        let mut line = "Error: ".to_owned();
        line.append(self.to_string().as_str());
        line.append("\n");
        line
    }
}

} // verus!
