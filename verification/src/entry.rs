//! One entry of the planner: a time of day and what is to be done then.

use vstd::prelude::*;
use vstd::std_specs::cmp::PartialEqSpecImpl;
use vstd::string::StringExecFns;
use crate::error::AppError;
use crate::storage::{can_sort, decoded, saved, stored, Storage};
use crate::text::{chars_of, is_break, is_trim, lemma_trimmed_is_trim, text_of, trim, trimmed};
use crate::time::{canonical, clock, is_canonical, lemma_canonical, order_key, parse_time, time_key};

verus! {

/// What an entry says: the text of its time and the text of its task.
pub struct Record {
    pub time: Seq<char>,
    pub target: Seq<char>,
}

impl Record {
    /// The entry is one that the user may have dictated: its time is a time
    /// of day as it is written down, and its task is not empty and has no
    /// white space at either end.
    pub open spec fn valid(self) -> bool {
        &&& is_canonical(self.time)
        &&& self.target.len() > 0
        &&& is_trim(self.target)
    }

    /// The entry is valid and comes back from the file as it went in: its
    /// task holds no empty line.
    pub open spec fn storable(self) -> bool {
        &&& self.valid()
        &&& forall|i: int| !is_break(self.target, i)
    }

    /// The time of the entry has a number by which it can be put in order.
    pub open spec fn sortable(self) -> bool {
        order_key(self.time) is Some
    }

    /// The number by which the entry is put in order.
    pub open spec fn key(self) -> int
        recommends
            self.sortable(),
    {
        match order_key(self.time) {
            Some(k) => k,
            None => 0,
        }
    }

    /// The two lines that show the entry to the user.
    pub open spec fn shown(self) -> Seq<char> {
        "Время: "@ + self.time + "\nЗадача: "@ + self.target + "\n"@
    }
}

/// What the planner asks of an entry: its two texts, and how it is shown.
pub trait EntryTrait {
    /// What the entry says.
    spec fn record(&self) -> Record;

    /// The time of the entry, as written.
    fn time(&self) -> (time: &str)
        ensures
            time@ == self.record().time,
    ;

    /// The task of the entry.
    fn target(&self) -> (target: &str)
        ensures
            target@ == self.record().target,
    ;

    /// The entry as shown to the user: a line with its time, a line with
    /// its task.
    fn to_string(&self) -> (shown: String)
        ensures
            shown@ == self.record().shown(),
    ;
}

/// An entry of the planner.
#[derive(Debug)]
pub struct Entry {
    time: String,
    target: String,
}

impl View for Entry {
    type V = Record;

    closed spec fn view(&self) -> Record {
        Record { time: self.time@, target: self.target@ }
    }
}

impl Default for Entry {
    /// The entry with no time and no task.
    fn default() -> (entry: Entry)
        ensures
            entry@ == (Record { time: Seq::empty(), target: Seq::empty() }),
    {
        Entry { time: String::new(), target: String::new() }
    }
}

impl Clone for Entry {
    fn clone(&self) -> (copy: Entry)
        ensures
            copy@ == self@,
    {
        Entry { time: self.time.clone(), target: self.target.clone() }
    }
}

impl PartialEq for Entry {
    /// Two entries are equal if they say the same.
    fn eq(&self, other: &Entry) -> (same: bool) {
        self.time == other.time && self.target == other.target
    }
}

impl PartialEqSpecImpl for Entry {
    open spec fn obeys_eq_spec() -> bool {
        true
    }

    open spec fn eq_spec(&self, other: &Entry) -> bool {
        self@ == other@
    }
}

impl EntryTrait for Entry {
    open spec fn record(&self) -> Record {
        self@
    }

    fn time(&self) -> (time: &str) {
        self.time.as_str()
    }

    fn target(&self) -> (target: &str) {
        self.target.as_str()
    }

    fn to_string(&self) -> (shown: String) {
        let mut shown = "Время: ".to_owned();
        shown.append(self.time.as_str());
        shown.append("\nЗадача: ");
        shown.append(self.target.as_str());
        shown.append("\n");
        shown
    }
}

impl Entry {
    /// The entry that says what the two texts say, whatever they are.
    pub(crate) fn from_parts(time: String, target: String) -> (entry: Entry)
        ensures
            entry@ == (Record { time: time@, target: target@ }),
    {
        Entry { time, target }
    }

    /// Makes an entry of what the user typed for the task and for the time.
    ///
    /// The task is taken without the white space around it. A task or a time
    /// that is empty or all white space means that the user wants to stop:
    /// the result is `AppError::Exit`. A time that names no time of day is
    /// refused as invalid. Otherwise the entry holds the task and the time
    /// as it is written down, and is valid.
    pub fn try_from(target: &str, time: &str) -> (entry: Result<Entry, AppError>)
        ensures
            if trimmed(target@).len() == 0 || trimmed(time@).len() == 0 {
                entry matches Err(AppError::Exit)
            } else {
                match clock(time@) {
                    Some((hour, minute)) => entry matches Ok(e) && e@ == (Record {
                        time: canonical(hour, minute),
                        target: trimmed(target@),
                    }) && e@.valid(),
                    None => entry matches Err(error) && error.is_invalid_time(),
                }
            },
    {
        let typed = chars_of(target);
        let task = trim(typed.as_slice());
        if task.len() == 0 {
            return Err(AppError::Exit);
        }
        let typed_time = chars_of(time);
        if trim(typed_time.as_slice()).len() == 0 {
            return Err(AppError::Exit);
        }
        match parse_time(time) {
            Ok(written) => {
                proof {
                    let (hour, minute) = clock(time@).unwrap();
                    lemma_canonical(hour, minute);
                    lemma_trimmed_is_trim(target@);
                }
                Ok(Entry { time: written, target: text_of(task) })
            },
            Err(error) => Err(error),
        }
    }

    /// The number by which the entry is put in order, if its time has one.
    pub fn order_key(&self) -> (key: Option<i32>)
        ensures
            key is Some == self@.sortable(),
            key matches Some(k) ==> k == self@.key(),
    {
        time_key(self.time.as_str())
    }

    /// The content of the planner's file once this entry has been saved to
    /// it: see [`Storage::save`].
    pub fn save(&self, storage: &Storage, file: Option<&str>) -> (content: String)
        requires
            can_sort(decoded(stored(file_text(file))).push(self@)),
        ensures
            content@ == saved(file_text(file), self@),
    {
        storage.save(file, self.clone())
    }
}

/// What the entries of a list say, one by one.
pub open spec fn records(list: Seq<Entry>) -> Seq<Record> {
    list.map_values(|e: Entry| e@)
}

/// The text of a file that may not be there.
pub open spec fn file_text(file: Option<&str>) -> Option<Seq<char>> {
    match file {
        Some(content) => Some(content@),
        None => None,
    }
}

} // verus!
