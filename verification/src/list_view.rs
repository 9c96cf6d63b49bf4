//! The listing of the planner's entries, as shown to the user.

use vstd::prelude::*;
use vstd::string::StringExecFns;
use crate::entry::{records, Entry, EntryTrait, Record};

verus! {

/// The line that opens and closes the listing.
pub open spec fn banner_text() -> Seq<char> {
    "====================================\n"@
}

/// The title of the listing, and the empty line under it.
pub open spec fn title_text() -> Seq<char> {
    "Мое расписание:\n\n"@
}

/// The line drawn between two entries.
pub open spec fn rule_text() -> Seq<char> {
    "--------------------------\n"@
}

/// The entries as shown, one after the other, with a rule between each two.
pub open spec fn joined(list: Seq<Record>) -> Seq<char>
    decreases list.len(),
{
    if list.len() == 0 {
        Seq::empty()
    } else if list.len() == 1 {
        list[0].shown()
    } else {
        joined(list.drop_last()) + rule_text() + list.last().shown()
    }
}

/// The listing: the banner, the title, the entries with rules between
/// them, a line break, and the banner again.
pub open spec fn listing(list: Seq<Record>) -> Seq<char> {
    banner_text() + title_text() + joined(list) + "\n"@ + banner_text()
}

/// The view that lists the planner's entries.
#[derive(Debug)]
pub struct ListView;

impl Default for ListView {
    fn default() -> (view: ListView)
        ensures
            view == ListView,
    {
        ListView
    }
}

impl ListView {
    /// The listing of `entries`, in the order given.
    pub fn render(&self, entries: &Vec<Entry>) -> (text: String)
        ensures
            text@ == listing(records(entries@)),
    {
        let mut text = "====================================\n".to_owned();
        text.append("Мое расписание:\n\n");
        let ghost head = text@;
        let ghost all = records(entries@);
        let mut i: usize = 0;
        assert(head + joined(all.take(0)) =~= head);
        while i < entries.len()
            invariant
                i <= entries@.len(),
                all == records(entries@),
                head == banner_text() + title_text(),
                text@ == head + joined(all.take(i as int)),
            decreases entries@.len() - i,
        {
            let ghost before = text@;
            if i > 0 {
                text.append("--------------------------\n");
            }
            let shown = entries[i].to_string();
            text.append(shown.as_str());
            i += 1;
            proof {
                let now = all.take(i as int);
                assert(now.drop_last() =~= all.take(i - 1));
                assert(now.last() == entries@[i - 1]@);
                if i == 1 {
                    assert(joined(all.take(0)) =~= Seq::<char>::empty());
                    assert(text@ =~= head + joined(now));
                } else {
                    assert(text@ =~= head + joined(now));
                }
            }
        }
        assert(all.take(i as int) =~= all);
        text.append("\n");
        text.append("====================================\n");
        text
    }
}

} // verus!
