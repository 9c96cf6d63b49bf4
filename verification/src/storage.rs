//! The planner's file: how entries are written into it, how they are read
//! back, and how a new entry finds its place among those already there.
//!
//! The file is plain text. Each entry is two lines, its time and its task,
//! followed by an empty line. The library never touches the file itself: it
//! is handed what the file holds and hands back what it is to hold.

use vstd::prelude::*;
use vstd::slice::slice_subrange;
use vstd::string::StringExecFns;
use crate::entry::{file_text, records, Entry, EntryTrait, Record};
use crate::text::{chars_of, find, first_index, is_break, text_of, trim, trimmed};

verus! {

/// The place of the first empty line in `s`, that is of the first of two
/// line breaks in a row; the length of `s` where it holds none.
pub open spec fn break_index(s: Seq<char>) -> int
    decreases s.len(),
{
    if s.len() < 2 {
        s.len() as int
    } else if is_break(s, 0) {
        0
    } else {
        1 + break_index(s.drop_first())
    }
}

/// The entry that a block of the file holds: the block is taken without the
/// white space around it; what stands before its first line break is the
/// time, all that follows is the task. A block of one line holds no entry.
pub open spec fn block_record(block: Seq<char>) -> Option<Record> {
    let lines = trimmed(block);
    let at = first_index(lines, '\n');
    if at < lines.len() {
        Some(Record { time: lines.take(at), target: lines.skip(at + 1) })
    } else {
        None
    }
}

/// The entries that a text holds, in its order: the text is cut at each
/// empty line, and every block that holds an entry gives one.
pub open spec fn decoded(s: Seq<char>) -> Seq<Record>
    decreases s.len(),
    via decoded_decreases
{
    if s.len() == 0 {
        Seq::empty()
    } else {
        let at = break_index(s);
        let rest = if at < s.len() {
            decoded(s.skip(at + 2))
        } else {
            Seq::empty()
        };
        match block_record(s.take(at)) {
            Some(record) => seq![record] + rest,
            None => rest,
        }
    }
}

#[via_fn]
proof fn decoded_decreases(s: Seq<char>) {
    lemma_break_index_found(s);
}

/// The text of one entry in the file: its time, a line break, its task, and
/// two line breaks.
pub open spec fn block_text(record: Record) -> Seq<char> {
    record.time + seq!['\n'] + record.target + seq!['\n', '\n']
}

/// The text that holds the given entries, one after the other.
pub open spec fn encoded(list: Seq<Record>) -> Seq<char>
    decreases list.len(),
{
    if list.len() == 0 {
        Seq::empty()
    } else {
        encoded(list.drop_last()) + block_text(list.last())
    }
}

/// The place at which `record` enters `list`: behind the last entry that
/// does not come later than it.
pub open spec fn slot(list: Seq<Record>, record: Record) -> int
    decreases list.len(),
{
    if list.len() == 0 || list.last().key() <= record.key() {
        list.len() as int
    } else {
        slot(list.drop_last(), record)
    }
}

/// The entries of `list` in the order of their times. Entries of the same
/// time stay in the order in which `list` has them.
pub open spec fn sorted(list: Seq<Record>) -> Seq<Record>
    decreases list.len(),
{
    if list.len() == 0 {
        list
    } else {
        let front = sorted(list.drop_last());
        front.insert(slot(front, list.last()), list.last())
    }
}

/// The entries can be put in order: there is one of them at most, or each
/// has a number by which it is ordered.
pub open spec fn can_sort(list: Seq<Record>) -> bool {
    list.len() >= 2 ==> forall|i: int| 0 <= i < list.len() ==> (#[trigger] list[i]).sortable()
}

/// What a file holds; nothing, where there is no file.
pub open spec fn stored(file: Option<Seq<char>>) -> Seq<char> {
    match file {
        Some(content) => content,
        None => Seq::empty(),
    }
}

/// What the file holds once `record` has been saved: the entries it held
/// and the new one behind them, all in the order of their times.
pub open spec fn saved(file: Option<Seq<char>>, record: Record) -> Seq<char> {
    encoded(sorted(decoded(stored(file)).push(record)))
}

/// The words that confirm a save, and the line drawn under them.
pub open spec fn notice_text() -> Seq<char> {
    "Saved\n====================================\n"@
}

/// `break_index` is the one place before which no empty line begins and at
/// which one does, or the text ends.
pub proof fn lemma_break_index(s: Seq<char>, i: int)
    requires
        0 <= i <= s.len(),
        forall|j: int| 0 <= j < i ==> !is_break(s, j),
        i < s.len() ==> is_break(s, i),
    ensures
        break_index(s) == i,
    decreases s.len(),
{
    if s.len() >= 2 && !is_break(s, 0) {
        let rest = s.drop_first();
        assert forall|j: int| 0 <= j < i - 1 implies !is_break(rest, j) by {
            assert(!is_break(s, j + 1));
        }
        lemma_break_index(rest, i - 1);
    } else if s.len() >= 2 {
        if i > 0 {
            assert(!is_break(s, 0));
        }
    }
}

/// What `break_index` finds: it lies within the text or at its end, no
/// empty line begins before it, and unless it is the end one begins there.
pub proof fn lemma_break_index_found(s: Seq<char>)
    ensures
        0 <= break_index(s) <= s.len(),
        forall|j: int| 0 <= j < break_index(s) ==> !is_break(s, j),
        break_index(s) < s.len() ==> is_break(s, break_index(s)),
    decreases s.len(),
{
    if s.len() >= 2 && !is_break(s, 0) {
        let rest = s.drop_first();
        lemma_break_index_found(rest);
        assert forall|j: int| 0 <= j < break_index(s) implies !is_break(s, j) by {
            if j > 0 {
                assert(!is_break(rest, j - 1));
            }
        }
    }
}

/// What reading the file gives, and leaves to be done.
pub struct Reading {
    /// The entries of the file, in its order.
    pub entries: Vec<Entry>,
    /// There was no file: an empty one is to be made.
    pub create: bool,
}

/// The planner's file, known by its path.
pub struct Storage {
    path: String,
}

impl View for Storage {
    type V = Seq<char>;

    closed spec fn view(&self) -> Seq<char> {
        self.path@
    }
}

/// The place of the first empty line in `s`, or the length of `s`.
fn find_break(s: &[char]) -> (at: usize)
    ensures
        at == break_index(s@),
        at <= s@.len(),
        at < s@.len() ==> at + 2 <= s@.len(),
{
    let n = s.len();
    let mut i: usize = 0;
    while n - i >= 2 && !(s[i] == '\n' && s[i + 1] == '\n')
        invariant
            i <= n == s@.len(),
            forall|j: int| 0 <= j < i ==> !is_break(s@, j),
        decreases n - i,
    {
        i += 1;
    }
    let at = if n - i >= 2 {
        i
    } else {
        n
    };
    proof {
        lemma_break_index(s@, at as int);
    }
    at
}

/// The entry that a block of the file holds, if it holds one.
fn read_block(block: &[char]) -> (entry: Option<Entry>)
    ensures
        match block_record(block@) {
            Some(record) => entry matches Some(e) && e@ == record,
            None => entry is None,
        },
{
    let lines = trim(block);
    let at = find(lines, '\n');
    if at < lines.len() {
        let time = text_of(slice_subrange(lines, 0, at));
        let target = text_of(slice_subrange(lines, at + 1, lines.len()));
        Some(Entry::from_parts(time, target))
    } else {
        None
    }
}

/// The entries that a text holds, in its order.
fn decode(content: &[char]) -> (list: Vec<Entry>)
    ensures
        records(list@) == decoded(content@),
{
    let mut list: Vec<Entry> = Vec::new();
    let mut rest = content;
    assert(records(list@) + decoded(rest@) =~= decoded(content@));
    while rest.len() > 0
        invariant
            records(list@) + decoded(rest@) == decoded(content@),
        decreases rest@.len(),
    {
        let ghost before = records(list@);
        let ghost whole = rest@;
        let at = find_break(rest);
        match read_block(slice_subrange(rest, 0, at)) {
            Some(entry) => {
                proof {
                    assert(records(list@.push(entry)) =~= before.push(entry@));
                }
                list.push(entry);
            },
            None => {},
        }
        rest = slice_subrange(
            rest,
            if at < rest.len() {
                at + 2
            } else {
                at
            },
            rest.len(),
        );
        proof {
            if at >= whole.len() {
                assert(rest@.len() == 0);
            }
            match block_record(whole.take(at as int)) {
                Some(record) => {
                    assert(before.push(record) + decoded(rest@) =~= before + (seq![record]
                        + decoded(rest@)));
                },
                None => {},
            }
        }
    }
    assert(records(list@) + decoded(rest@) =~= records(list@));
    list
}

/// The text that holds the given entries, one after the other.
fn encode(list: &Vec<Entry>) -> (content: String)
    ensures
        content@ == encoded(records(list@)),
{
    let mut content = String::new();
    let mut i: usize = 0;
    while i < list.len()
        invariant
            i <= list@.len(),
            content@ == encoded(records(list@).take(i as int)),
        decreases list@.len() - i,
    {
        let ghost before = content@;
        let entry = &list[i];
        content.append(entry.time());
        content.push('\n');
        content.append(entry.target());
        content.push('\n');
        content.push('\n');
        i += 1;
        proof {
            let all = records(list@);
            assert(all.take(i as int).drop_last() =~= all.take(i - 1));
            assert(all.take(i as int).last() == entry@);
            assert(content@ =~= before + block_text(entry@));
        }
    }
    assert(records(list@).take(i as int) =~= records(list@));
    content
}

/// Whether `entry` comes later than the time with the number `key`.
fn comes_later(entry: &Entry, key: i32) -> (later: bool)
    requires
        entry@.sortable(),
    ensures
        later == (entry@.key() > key),
{
    entry.order_key().unwrap() > key
}

/// `slot` is the one place behind which every entry comes later than the
/// new one, and before which stands one that does not, or none.
pub proof fn lemma_slot(list: Seq<Record>, record: Record, at: int)
    requires
        0 <= at <= list.len(),
        forall|j: int| at <= j < list.len() ==> list[j].key() > record.key(),
        at > 0 ==> list[at - 1].key() <= record.key(),
    ensures
        slot(list, record) == at,
    decreases list.len(),
{
    if list.len() > 0 && list.last().key() > record.key() {
        lemma_slot(list.drop_last(), record, at);
    }
}

/// The entries of `list` in the order of their times.
fn sort(list: Vec<Entry>) -> (out: Vec<Entry>)
    requires
        can_sort(records(list@)),
    ensures
        records(out@) == sorted(records(list@)),
{
    let ghost all = records(list@);
    let mut out: Vec<Entry> = Vec::new();
    for entry in it: list
        invariant
            all == records(it.seq()),
            can_sort(all),
            records(out@) == sorted(all.take(it.index() as int)),
            out@.len() == it.index(),
            all.len() >= 2 ==> forall|j: int| 0 <= j < out@.len() ==> (#[trigger] out@[j])@.sortable(),
    {
        let ghost before = records(out@);
        let ghost index = it.index() as int;
        let mut at = out.len();
        assert(all[index] == entry@);
        if at > 0 {
            let key = entry.order_key().unwrap();
            while at > 0 && comes_later(&out[at - 1], key)
                invariant
                    at <= out@.len(),
                    key == entry@.key(),
                    forall|j: int| 0 <= j < out@.len() ==> (#[trigger] out@[j])@.sortable(),
                    forall|j: int| at <= j < out@.len() ==> (#[trigger] out@[j])@.key() > key,
                decreases at,
            {
                at -= 1;
            }
        }
        proof {
            assert forall|j: int| at <= j < before.len() implies before[j].key() > entry@.key() by {
                assert(before[j] == out@[j]@);
            }
            if at > 0 {
                assert(before[at - 1] == out@[at - 1]@);
            }
            lemma_slot(before, entry@, at as int);
            assert(all.take(index + 1).drop_last() =~= all.take(index));
            assert(all.take(index + 1).last() == entry@);
            assert(records(out@.insert(at as int, entry)) =~= before.insert(at as int, entry@));
        }
        out.insert(at, entry);
    }
    assert(all.take(all.len() as int) =~= all);
    out
}

impl Storage {
    /// The storage whose file is at `path`.
    pub fn new(path: &str) -> (storage: Storage)
        ensures
            storage@ == path@,
    {
        Storage { path: path.to_owned() }
    }

    /// The path of the file.
    pub fn path(&self) -> (path: &str)
        ensures
            path@ == self@,
    {
        self.path.as_str()
    }

    /// Reads the file. `file` is what the file holds, or `None` where there
    /// is no file yet: then nothing is read, and the file is to be made,
    /// empty. Blocks of the file that hold no entry are passed over.
    pub fn read(&self, file: Option<&str>) -> (reading: Reading)
        ensures
            records(reading.entries@) == decoded(stored(file_text(file))),
            reading.create == (file is None),
    {
        match file {
            Some(content) => {
                let held = chars_of(content);
                Reading { entries: decode(held.as_slice()), create: false }
            },
            None => Reading { entries: Vec::new(), create: true },
        }
    }

    /// Whether `entry` can be saved to the file: whether it and the entries
    /// of the file can be put in order.
    pub fn accepts(&self, file: Option<&str>, entry: &Entry) -> (yes: bool)
        ensures
            yes == can_sort(decoded(stored(file_text(file))).push(entry@)),
    {
        let reading = self.read(file);
        let list = reading.entries;
        let ghost all = records(list@).push(entry@);
        if list.len() == 0 {
            return true;
        }
        if entry.order_key().is_none() {
            assert(!all[list@.len() as int].sortable());
            return false;
        }
        let mut i: usize = 0;
        while i < list.len()
            invariant
                i <= list@.len(),
                all == records(list@).push(entry@),
                all == decoded(stored(file_text(file))).push(entry@),
                forall|j: int| 0 <= j < i ==> (#[trigger] list@[j])@.sortable(),
            decreases list@.len() - i,
        {
            if list[i].order_key().is_none() {
                assert(all[i as int] == list@[i as int]@);
                assert(!all[i as int].sortable());
                return false;
            }
            i += 1;
        }
        assert forall|j: int| 0 <= j < all.len() implies (#[trigger] all[j]).sortable() by {
            if j < list@.len() {
                assert(all[j] == list@[j]@);
            }
        }
        true
    }

    /// Saves `entry`: gives what the file is to hold afterwards, which is
    /// every entry it held and the new one, in the order of their times,
    /// each as two lines and an empty line. Entries of one time keep their
    /// order, the new one last among them.
    pub fn save(&self, file: Option<&str>, entry: Entry) -> (content: String)
        requires
            can_sort(decoded(stored(file_text(file))).push(entry@)),
        ensures
            content@ == saved(file_text(file), entry@),
    {
        let reading = self.read(file);
        let mut list = reading.entries;
        proof {
            assert(records(list@.push(entry)) =~= records(list@).push(entry@));
        }
        list.push(entry);
        let list = sort(list);
        encode(&list)
    }

    /// What is said to the user after a save.
    pub fn notice(&self) -> (text: String)
        ensures
            text@ == notice_text(),
    {
        "Saved\n====================================\n".to_owned()
    }
}

} // verus!
