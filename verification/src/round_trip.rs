//! What is written into the planner's file comes back out of it.

use vstd::prelude::*;
use crate::entry::Record;
use crate::sorting::{lemma_sorted, lemma_sorted_holds, lemma_sorted_twice, ordered};
use crate::storage::{
    block_record, block_text, can_sort, decoded, encoded, lemma_break_index, saved, sorted,
    stored,
};
use crate::text::{is_break, lemma_first_index, lemma_trim_of_trim};
use crate::time::{is_time_char, lemma_canonical_chars};

verus! {

/// What the file holds once the entries of `list` have been saved one after
/// the other, beginning with no file at all.
pub open spec fn saved_all(list: Seq<Record>) -> Option<Seq<char>>
    decreases list.len(),
{
    if list.len() == 0 {
        None
    } else {
        Some(saved(saved_all(list.drop_last()), list.last()))
    }
}

/// What the file is after it has been read: as it was, or empty where there
/// was none.
pub open spec fn after_read(file: Option<Seq<char>>) -> Option<Seq<char>> {
    Some(stored(file))
}

/// Every entry of the list is storable.
pub open spec fn all_storable(list: Seq<Record>) -> bool {
    forall|i: int| 0 <= i < list.len() ==> (#[trigger] list[i]).storable()
}

/// The text of a storable entry, with whatever follows it, is read as that
/// entry and then what follows.
proof fn lemma_decode_block(record: Record, tail: Seq<char>)
    requires
        record.storable(),
    ensures
        decoded(block_text(record) + tail) == seq![record] + decoded(tail),
{
    let time = record.time;
    let target = record.target;
    let s = block_text(record) + tail;
    let n: int = (time.len() + 1 + target.len()) as int;
    let cut: int = time.len() as int;
    lemma_canonical_chars(time);
    assert forall|j: int| 0 <= j < n implies !is_break(s, j) by {
        if j < time.len() {
            assert(s[j] == time[j]);
            assert(is_time_char(time[j]));
        } else if j == time.len() {
            assert(s[j + 1] == target.first());
        } else if j < n - 1 {
            assert(s[j] == target[j - time.len() - 1]);
            assert(s[j + 1] == target[j - time.len()]);
            assert(!is_break(target, j - time.len() - 1));
        } else {
            assert(s[j] == target.last());
        }
    }
    assert(s[n] == '\n' && s[n + 1] == '\n');
    lemma_break_index(s, n);
    let block = time + seq!['\n'] + target;
    assert(s.take(n) =~= block);
    assert(s.skip(n + 2) =~= tail);
    assert(block.first() == time[0]);
    assert(is_time_char(time[0]));
    assert(block.last() == target.last());
    lemma_trim_of_trim(block);
    assert forall|j: int| 0 <= j < time.len() implies block[j] != '\n' by {
        assert(block[j] == time[j]);
        assert(is_time_char(time[j]));
    }
    assert(block[cut] == '\n');
    lemma_first_index(block, '\n', cut);
    assert(block.take(cut) =~= time);
    assert(block.skip(cut + 1) =~= target);
    assert(block_record(block) == Some(record));
}

/// The text of a list is the text of its first entry and then the text of
/// the others.
proof fn lemma_encoded_front(record: Record, rest: Seq<Record>)
    ensures
        encoded(seq![record] + rest) == block_text(record) + encoded(rest),
    decreases rest.len(),
{
    let whole = seq![record] + rest;
    if rest.len() == 0 {
        assert(whole.drop_last() =~= Seq::<Record>::empty());
        assert(encoded(whole.drop_last()) =~= Seq::<char>::empty());
        assert(encoded(whole) =~= block_text(record));
        assert(block_text(record) + encoded(rest) =~= block_text(record));
    } else {
        lemma_encoded_front(record, rest.drop_last());
        assert(whole.drop_last() =~= seq![record] + rest.drop_last());
        assert(whole.last() == rest.last());
        assert(encoded(whole) =~= block_text(record) + encoded(rest));
    }
}

/// A list of storable entries, written out and read back, is that list.
pub proof fn lemma_round_trip(list: Seq<Record>)
    requires
        all_storable(list),
    ensures
        decoded(encoded(list)) == list,
    decreases list.len(),
{
    if list.len() == 0 {
        assert(decoded(encoded(list)) =~= list);
    } else {
        let first = list[0];
        let rest = list.drop_first();
        assert(list =~= seq![first] + rest);
        assert(all_storable(rest)) by {
            assert forall|i: int| 0 <= i < rest.len() implies (#[trigger] rest[i]).storable() by {
                assert(rest[i] == list[i + 1]);
            }
        }
        lemma_encoded_front(first, rest);
        lemma_decode_block(first, encoded(rest));
        lemma_round_trip(rest);
    }
}

/// Putting storable entries in order leaves storable entries.
proof fn lemma_sorted_storable(list: Seq<Record>)
    requires
        all_storable(list),
    ensures
        all_storable(sorted(list)),
        sorted(list).len() == list.len(),
{
    lemma_sorted(list);
    assert forall|i: int| 0 <= i < sorted(list).len() implies (#[trigger] sorted(
        list,
    )[i]).storable() by {
        lemma_sorted_holds(list, i);
        let found = choose|j: int| 0 <= j < list.len() && list[j] == sorted(list)[i];
        assert(list[found].storable());
    }
}

/// Storable entries saved one after the other, from no file at all, are
/// read back as the same entries, each as often as it was saved, in the
/// order of their times.
pub proof fn lemma_saved_all(list: Seq<Record>)
    requires
        all_storable(list),
    ensures
        decoded(stored(saved_all(list))) == sorted(list),
        sorted(list).len() == list.len(),
        sorted(list).to_multiset() == list.to_multiset(),
        ordered(sorted(list)),
    decreases list.len(),
{
    lemma_sorted(list);
    if list.len() == 0 {
        assert(decoded(stored(saved_all(list))) =~= sorted(list));
    } else {
        let init = list.drop_last();
        let last = list.last();
        assert(all_storable(init)) by {
            assert forall|i: int| 0 <= i < init.len() implies (#[trigger] init[i]).storable() by {
                assert(init[i] == list[i]);
            }
        }
        lemma_saved_all(init);
        let held = sorted(init);
        assert(held.push(last).drop_last() =~= held);
        lemma_sorted_twice(init);
        assert(sorted(held.push(last)) == sorted(list));
        lemma_sorted_storable(list);
        lemma_round_trip(sorted(list));
    }
}

/// Each of these saves is one that the file accepts.
pub proof fn lemma_saved_all_accepted(list: Seq<Record>, i: int)
    requires
        all_storable(list),
        0 <= i < list.len(),
    ensures
        can_sort(decoded(stored(saved_all(list.take(i)))).push(list[i])),
{
    let before = list.take(i);
    assert(all_storable(before)) by {
        assert forall|j: int| 0 <= j < before.len() implies (#[trigger] before[j]).storable() by {
            assert(before[j] == list[j]);
        }
    }
    lemma_saved_all(before);
    lemma_sorted_storable(before);
    let all = sorted(before).push(list[i]);
    assert forall|j: int| 0 <= j < all.len() implies (#[trigger] all[j]).sortable() by {
        if j < before.len() {
            assert(all[j] == sorted(before)[j]);
            assert(sorted(before)[j].storable());
        } else {
            assert(all[j] == list[i]);
            assert(list[i].storable());
        }
        lemma_canonical_chars(all[j].time);
    }
}

/// Reading where there is no file gives no entries and leaves an empty
/// file; reading again gives the same and leaves the file as it is. More
/// generally a read changes neither what a second read gives nor, after the
/// first, the file.
pub proof fn lemma_bootstrap(file: Option<Seq<char>>)
    ensures
        decoded(stored(None)) == Seq::<Record>::empty(),
        after_read(None) == Some(Seq::<char>::empty()),
        decoded(stored(after_read(None))) == Seq::<Record>::empty(),
        after_read(after_read(None)) == after_read(None),
        decoded(stored(after_read(file))) == decoded(stored(file)),
        after_read(after_read(file)) == after_read(file),
{
}

} // verus!
