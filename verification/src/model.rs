//! The three parts of a run: the greeting, the dialog in which entries are
//! added, and the listing. Each is a function from what the shell around
//! the library has read to what it is to do next; the shell does the
//! reading, the writing and the printing.

use vstd::prelude::*;
use vstd::string::StringExecFns;
use crate::entry::{records, Entry, Record};
use crate::error::AppError;
use crate::list_view::{listing, ListView};
use crate::text::{chars_of, is_trim, lemma_trimmed_is_trim, text_of, trim, trimmed};
use crate::time::{canonical, clock};

verus! {

/// The words that greet the user.
pub open spec fn greeting_text() -> Seq<char> {
    "Привет!\n"@
}

/// The question for the task.
pub open spec fn task_prompt_text() -> Seq<char> {
    "What are you planning to do?: "@
}

/// The question for the time.
pub open spec fn time_prompt_text() -> Seq<char> {
    "At what time (e.g. 9:30): "@
}

/// A part of a run.
pub trait ModelTrait: Default {
    /// What the shell hands to the model.
    type Input;

    /// What the model hands back.
    type Output;

    /// One step of the model.
    fn exec(&self, input: Self::Input) -> Self::Output;
}

/// Where the dialog stands.
#[derive(Debug)]
pub enum Dialog {
    /// The user is asked for a task.
    Task,
    /// The user has named a task and is asked for its time.
    Time { target: String },
    /// The user wants to add nothing more.
    Closed,
}

/// What the shell does after an answer of the user.
#[derive(Debug)]
pub enum Action {
    /// Nothing but to ask the next question.
    Ask,
    /// Tell the user of the error, then ask again.
    Reject(AppError),
    /// Save the entry and confirm it, then ask the next question.
    Save(Entry),
    /// Stop asking.
    Leave,
}

impl Dialog {
    /// A task that waits for its time is not empty and has no white space at
    /// either end.
    pub open spec fn wf(self) -> bool {
        self matches Dialog::Time { target } ==> target@.len() > 0 && is_trim(target@)
    }

    /// The question to put to the user, unless the dialog is closed.
    pub fn prompt(&self) -> (prompt: Option<&'static str>)
        ensures
            match self {
                Dialog::Task => prompt matches Some(text) && text@ == task_prompt_text(),
                Dialog::Time { .. } => prompt matches Some(text) && text@ == time_prompt_text(),
                Dialog::Closed => prompt is None,
            },
    {
        match self {
            Dialog::Task => Some("What are you planning to do?: "),
            Dialog::Time { .. } => Some("At what time (e.g. 9:30): "),
            Dialog::Closed => None,
        }
    }
}

/// The greeting.
#[derive(Debug)]
pub struct HelloModel;

/// The dialog in which entries are added.
#[derive(Debug)]
pub struct AddEntryModel;

/// The listing of the entries.
#[derive(Debug)]
pub struct ViewListEntryModel;

impl Default for HelloModel {
    fn default() -> (model: HelloModel)
        ensures
            model == HelloModel,
    {
        HelloModel
    }
}

impl Default for AddEntryModel {
    fn default() -> (model: AddEntryModel)
        ensures
            model == AddEntryModel,
    {
        AddEntryModel
    }
}

impl Default for ViewListEntryModel {
    fn default() -> (model: ViewListEntryModel)
        ensures
            model == ViewListEntryModel,
    {
        ViewListEntryModel
    }
}

impl ModelTrait for HelloModel {
    type Input = ();

    type Output = String;

    /// The line that greets the user.
    fn exec(&self, input: ()) -> (text: String)
        ensures
            text@ == greeting_text(),
    {
        "Привет!\n".to_owned()
    }
}

impl AddEntryModel {
    /// The state in which the dialog begins.
    pub fn start(&self) -> (dialog: Dialog)
        ensures
            dialog is Task,
    {
        Dialog::Task
    }
}

impl ModelTrait for AddEntryModel {
    type Input = (Dialog, String);

    type Output = (Dialog, Action);

    /// Takes the state of the dialog and the line that the user typed, and
    /// gives the next state and what the shell is to do.
    ///
    /// A line that is empty or all white space closes the dialog, whichever
    /// question it answers, and nothing of an entry under way is kept. A
    /// task is kept without the white space around it, and its time is asked
    /// for. A line that names a time of day completes the entry, which is to
    /// be saved, and the next task is asked for; any other line is refused
    /// as an invalid time, and the time is asked for again.
    fn exec(&self, input: (Dialog, String)) -> (next: (Dialog, Action))
        ensures
            match input.0 {
                Dialog::Closed => next.0 is Closed && next.1 is Leave,
                Dialog::Task => if trimmed(input.1@).len() == 0 {
                    next.0 is Closed && next.1 is Leave
                } else {
                    &&& next.0 matches Dialog::Time { target }
                    &&& target@ == trimmed(input.1@)
                    &&& next.0.wf()
                    &&& next.1 is Ask
                },
                Dialog::Time { target } => if trimmed(target@).len() == 0 || trimmed(
                    input.1@,
                ).len() == 0 {
                    next.0 is Closed && next.1 is Leave
                } else {
                    match clock(input.1@) {
                        Some((hour, minute)) => {
                            &&& next.0 is Task
                            &&& next.1 matches Action::Save(entry)
                            &&& entry@ == (Record {
                                time: canonical(hour, minute),
                                target: trimmed(target@),
                            })
                            &&& entry@.valid()
                        },
                        None => {
                            &&& next.0 matches Dialog::Time { target: kept }
                            &&& kept@ == target@
                            &&& next.1 matches Action::Reject(error)
                            &&& error.is_invalid_time()
                        },
                    }
                },
            },
    {
        let (dialog, line) = input;
        match dialog {
            Dialog::Closed => (Dialog::Closed, Action::Leave),
            Dialog::Task => {
                let typed = chars_of(line.as_str());
                let task = trim(typed.as_slice());
                if task.len() == 0 {
                    (Dialog::Closed, Action::Leave)
                } else {
                    proof {
                        lemma_trimmed_is_trim(line@);
                    }
                    (Dialog::Time { target: text_of(task) }, Action::Ask)
                }
            },
            Dialog::Time { target } => {
                match Entry::try_from(target.as_str(), line.as_str()) {
                    Ok(entry) => (Dialog::Task, Action::Save(entry)),
                    Err(AppError::Exit) => (Dialog::Closed, Action::Leave),
                    Err(error) => (Dialog::Time { target }, Action::Reject(error)),
                }
            },
        }
    }
}

impl ModelTrait for ViewListEntryModel {
    type Input = Vec<Entry>;

    type Output = String;

    /// What is printed at the end of a run: the listing of the entries that
    /// were read from the file, and a line break.
    fn exec(&self, input: Vec<Entry>) -> (text: String)
        ensures
            text@ == listing(records(input@)) + "\n"@,
    {
        let mut text = ListView.render(&input);
        text.append("\n");
        text
    }
}

} // verus!
