//! Facts about rows of messages that the proofs of the bus share.

use vstd::prelude::*;
use vstd::multiset::Multiset;
use vstd::seq_lib::{to_multiset_build, to_multiset_contains, to_multiset_remove, to_multiset_update};
use crate::message::Message;

verus! {

/// A row without messages has the empty multiset of them.
pub proof fn lemma_empty_row<T>(row: Seq<Message<T>>)
    requires
        row.len() == 0,
    ensures
        row.to_multiset() == Multiset::<Message<T>>::empty(),
{
    broadcast use vstd::multiset::group_multiset_axioms;

    assert forall|message: Message<T>| row.to_multiset().count(message) == 0 by {
        to_multiset_contains(row, message);
    }
    assert(row.to_multiset() =~= Multiset::<Message<T>>::empty());
}

/// Taking the message at `place` out of `row` by moving the last one into its
/// place removes that one message and no other.
pub proof fn lemma_swap_remove<T>(row: Seq<Message<T>>, place: int)
    requires
        0 <= place < row.len(),
    ensures
        row.update(place, row.last()).drop_last().to_multiset() == row.to_multiset().remove(
            row[place],
        ),
{
    broadcast use vstd::multiset::group_multiset_axioms;

    let moved = row.update(place, row.last());
    to_multiset_update(row, place, row.last());
    to_multiset_remove(moved, moved.len() - 1);
    to_multiset_contains(row, row[place]);
    assert(moved.drop_last() =~= moved.remove(moved.len() - 1));
    assert(moved.drop_last().to_multiset() =~= row.to_multiset().remove(row[place]));
}

/// A row in which every message is of the `wanted` ones passes the filter
/// whole; one in which none is passes nothing.
pub proof fn lemma_filter_whole_or_nothing<T>(
    row: Seq<Message<T>>,
    wanted: spec_fn(Message<T>) -> bool,
)
    ensures
        (forall|place: int| 0 <= place < row.len() ==> wanted(row[place])) ==> row.filter(wanted)
            == row,
        (forall|place: int| 0 <= place < row.len() ==> !wanted(row[place])) ==> row.filter(
            wanted,
        ) == Seq::<Message<T>>::empty(),
    decreases row.len(),
{
    reveal(Seq::filter);
    if row.len() > 0 {
        lemma_filter_whole_or_nothing(row.drop_last(), wanted);
        if forall|place: int| 0 <= place < row.len() ==> wanted(row[place]) {
            assert(row.drop_last().push(row.last()) =~= row);
        }
    } else {
        assert(row.filter(wanted) =~= row);
    }
}

/// A message that passes a filter is one of the wanted ones and stood in the
/// row filtered.
pub proof fn lemma_passed<T>(
    row: Seq<Message<T>>,
    wanted: spec_fn(Message<T>) -> bool,
    message: Message<T>,
)
    requires
        row.filter(wanted).contains(message),
    ensures
        wanted(message),
        row.contains(message),
{
    let place = choose|place: int|
        0 <= place < row.filter(wanted).len() && row.filter(wanted)[place] == message;
    row.lemma_filter_pred(wanted, place);
    row.lemma_filter_contains_rev(wanted, message);
}

/// A filter passes a wanted message as often as it stands in the row, and any
/// other message never.
pub proof fn lemma_passed_count<T>(
    row: Seq<Message<T>>,
    wanted: spec_fn(Message<T>) -> bool,
    message: Message<T>,
)
    ensures
        row.filter(wanted).to_multiset().count(message) == if wanted(message) {
            row.to_multiset().count(message)
        } else {
            0
        },
    decreases row.len(),
{
    broadcast use vstd::multiset::group_multiset_axioms;

    if row.len() == 0 {
        lemma_filter_whole_or_nothing(row, wanted);
        lemma_empty_row(row);
    } else {
        let front = row.drop_last();
        assert(front.push(row.last()) =~= row);
        lemma_passed_count(front, wanted, message);
        front.lemma_filter_push(row.last(), wanted);
        to_multiset_build(front.filter(wanted), row.last());
        to_multiset_build(front, row.last());
    }
}

} // verus!
