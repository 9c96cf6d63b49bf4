//! What putting entries in order keeps and what it brings about.

use vstd::prelude::*;
use vstd::seq_lib::lemma_multiset_commutative;
use crate::entry::Record;
use crate::storage::{slot, sorted};

verus! {

/// No entry of `list` comes later than one that stands behind it.
pub open spec fn ordered(list: Seq<Record>) -> bool {
    forall|i: int, j: int| 0 <= i <= j < list.len() ==> list[i].key() <= list[j].key()
}

/// The entries of `list` that are ordered by the number `key`, in the order
/// in which `list` has them.
pub open spec fn with_key(list: Seq<Record>, key: int) -> Seq<Record> {
    list.filter(|r: Record| r.key() == key)
}

/// What `slot` finds: every entry from there on comes later than the new
/// one, and the entry before it, if there is one, does not.
pub proof fn lemma_slot_found(list: Seq<Record>, record: Record)
    ensures
        0 <= slot(list, record) <= list.len(),
        forall|j: int| slot(list, record) <= j < list.len() ==> list[j].key() > record.key(),
        slot(list, record) > 0 ==> list[slot(list, record) - 1].key() <= record.key(),
    decreases list.len(),
{
    if list.len() > 0 && list.last().key() > record.key() {
        let init = list.drop_last();
        lemma_slot_found(init, record);
        assert forall|j: int| slot(list, record) <= j < list.len() implies list[j].key()
            > record.key() by {
            if j < init.len() {
                assert(list[j] == init[j]);
            }
        }
        if slot(list, record) > 0 {
            assert(list[slot(list, record) - 1] == init[slot(init, record) - 1]);
        }
    }
}

/// The entries of one number, one entry more.
proof fn lemma_with_key_push(list: Seq<Record>, record: Record, key: int)
    ensures
        with_key(list.push(record), key) == if record.key() == key {
            with_key(list, key).push(record)
        } else {
            with_key(list, key)
        },
{
    list.lemma_filter_push(record, |r: Record| r.key() == key);
}

/// The entries of one number in two lists, one behind the other.
proof fn lemma_with_key_add(a: Seq<Record>, b: Seq<Record>, key: int)
    ensures
        with_key(a + b, key) == with_key(a, key) + with_key(b, key),
{
    Seq::filter_distributes_over_add(a, b, |r: Record| r.key() == key);
}

/// A list in which no entry has the number holds none of that number.
proof fn lemma_with_key_none(list: Seq<Record>, key: int)
    requires
        forall|j: int| 0 <= j < list.len() ==> list[j].key() != key,
    ensures
        with_key(list, key) == Seq::<Record>::empty(),
    decreases list.len(),
{
    if list.len() > 0 {
        lemma_with_key_none(list.drop_last(), key);
        lemma_with_key_push(list.drop_last(), list.last(), key);
        assert(list.drop_last().push(list.last()) =~= list);
    } else {
        reveal(Seq::filter);
    }
}

/// An entry put in at its slot stands last among the entries of its number,
/// and leaves the entries of every other number as they were.
proof fn lemma_insert_with_key(list: Seq<Record>, at: int, record: Record, key: int)
    requires
        0 <= at <= list.len(),
        forall|j: int| at <= j < list.len() ==> list[j].key() > record.key(),
    ensures
        with_key(list.insert(at, record), key) == if record.key() == key {
            with_key(list, key).push(record)
        } else {
            with_key(list, key)
        },
{
    let a = list.subrange(0, at);
    let b = list.subrange(at, list.len() as int);
    assert(list =~= a + b);
    assert(list.insert(at, record) =~= a.push(record) + b);
    lemma_with_key_add(a.push(record), b, key);
    lemma_with_key_add(a, b, key);
    lemma_with_key_push(a, record, key);
    if record.key() == key {
        lemma_with_key_none(b, key);
        assert(with_key(a, key).push(record) + Seq::<Record>::empty() =~= with_key(a, key).push(
            record,
        ));
        assert(with_key(a, key) + Seq::<Record>::empty() =~= with_key(a, key));
    }
}

/// A list with one entry put in holds what it held, and that entry.
proof fn lemma_insert_multiset(list: Seq<Record>, at: int, record: Record)
    requires
        0 <= at <= list.len(),
    ensures
        list.insert(at, record).to_multiset() == list.to_multiset().insert(record),
{
    let a = list.subrange(0, at);
    let b = list.subrange(at, list.len() as int);
    assert(list =~= a + b);
    assert(list.insert(at, record) =~= a.push(record) + b);
    lemma_multiset_commutative(a.push(record), b);
    lemma_multiset_commutative(a, b);
    a.to_multiset_ensures();
    assert(a.to_multiset().insert(record).add(b.to_multiset()) =~= a.to_multiset().add(
        b.to_multiset(),
    ).insert(record));
}

/// Putting entries in order is a stable sort: the result holds the same
/// entries, each as often as the list does; none of them comes later than
/// one that stands behind it; and the entries of one number stand in the
/// order in which the list had them.
pub proof fn lemma_sorted(list: Seq<Record>)
    ensures
        sorted(list).len() == list.len(),
        sorted(list).to_multiset() == list.to_multiset(),
        ordered(sorted(list)),
        forall|key: int| #[trigger] with_key(sorted(list), key) == with_key(list, key),
    decreases list.len(),
{
    if list.len() > 0 {
        let init = list.drop_last();
        let last = list.last();
        lemma_sorted(init);
        let front = sorted(init);
        let at = slot(front, last);
        lemma_slot_found(front, last);
        let out = front.insert(at, last);
        assert(out == sorted(list));
        assert(init.push(last) =~= list);
        lemma_insert_multiset(front, at, last);
        init.to_multiset_ensures();
        assert forall|i: int, j: int| 0 <= i <= j < out.len() implies out[i].key()
            <= out[j].key() by {
            if at > 0 {
                assert(front[at - 1].key() <= last.key());
            }
            if j < at {
                assert(out[i] == front[i] && out[j] == front[j]);
            } else if j == at {
                if i < at {
                    assert(out[i] == front[i]);
                    assert(front[i].key() <= front[at - 1].key());
                }
            } else {
                assert(out[j] == front[j - 1]);
                if i < at {
                    assert(out[i] == front[i]);
                    assert(front[i].key() <= front[j - 1].key());
                } else if i > at {
                    assert(out[i] == front[i - 1]);
                }
            }
        }
        assert forall|key: int| #[trigger] with_key(out, key) == with_key(list, key) by {
            lemma_insert_with_key(front, at, last, key);
            lemma_with_key_push(init, last, key);
        }
    }
}

/// Entries that are in order stay as they are.
pub proof fn lemma_sorted_keeps(list: Seq<Record>)
    requires
        ordered(list),
    ensures
        sorted(list) == list,
    decreases list.len(),
{
    if list.len() > 0 {
        let init = list.drop_last();
        assert(ordered(init)) by {
            assert forall|i: int, j: int| 0 <= i <= j < init.len() implies init[i].key()
                <= init[j].key() by {
                assert(init[i] == list[i] && init[j] == list[j]);
            }
        }
        lemma_sorted_keeps(init);
        if init.len() > 0 {
            assert(init.last() == list[list.len() - 2]);
        }
        assert(init.insert(init.len() as int, list.last()) =~= list);
    }
}

/// Putting in order what is in order changes nothing.
pub proof fn lemma_sorted_twice(list: Seq<Record>)
    ensures
        sorted(sorted(list)) == sorted(list),
{
    lemma_sorted(list);
    lemma_sorted_keeps(sorted(list));
}

/// Every entry of the ordered list is an entry of the list.
pub proof fn lemma_sorted_holds(list: Seq<Record>, i: int)
    requires
        0 <= i < list.len(),
    ensures
        list.contains(sorted(list)[i]),
        sorted(list).len() == list.len(),
{
    lemma_sorted(list);
    let out = sorted(list);
    out.to_multiset_ensures();
    list.to_multiset_ensures();
    assert(out.contains(out[i]));
    assert(out.to_multiset().count(out[i]) > 0);
    assert(list.to_multiset().count(out[i]) > 0);
}

} // verus!
