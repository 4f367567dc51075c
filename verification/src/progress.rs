//! How far a tick has come: what it has made of the bus once it has looked at
//! some of the messages that it is to look at.

use vstd::prelude::*;
use vstd::seq_lib::{lemma_multiset_commutative, to_multiset_build};
use crate::index::BUCKETS;
use crate::message::Message;
use crate::model::{due_at, has_turn, is_due, looked_through, payloads, waits_in, BusView};
use crate::rows::{lemma_empty_row, lemma_filter_whole_or_nothing, lemma_swap_remove};

verus! {

/// What looking at one more message adds to the messages released and to
/// those filed in each bucket.
pub proof fn lemma_look_at<T>(seen: Seq<Message<T>>, message: Message<T>, time: u64)
    ensures
        is_due(message, time) ==> payloads(seen.push(message).filter(due_at(time))) == payloads(
            seen.filter(due_at(time)),
        ).push(message.payload()),
        !is_due(message, time) ==> seen.push(message).filter(due_at(time)) == seen.filter(
            due_at(time),
        ),
        forall|bucket: int| #[trigger]
            seen.push(message).filter(waits_in(time, bucket)) == if waits_in(time, bucket)(
                message,
            ) {
                seen.filter(waits_in(time, bucket)).push(message)
            } else {
                seen.filter(waits_in(time, bucket))
            },
{
    seen.lemma_filter_push(message, due_at(time));
    if is_due(message, time) {
        assert(payloads(seen.filter(due_at(time)).push(message)) =~= payloads(
            seen.filter(due_at(time)),
        ).push(message.payload()));
    }
    assert forall|bucket: int| #[trigger]
        seen.push(message).filter(waits_in(time, bucket)) == if waits_in(time, bucket)(message) {
            seen.filter(waits_in(time, bucket)).push(message)
        } else {
            seen.filter(waits_in(time, bucket))
        } by {
        seen.lemma_filter_push(message, waits_in(time, bucket));
    }
}

/// A look that has not begun has released nothing and filed nothing.
pub proof fn lemma_nothing_seen<T>(time: u64)
    ensures
        Seq::<Message<T>>::empty().filter(due_at(time)) == Seq::<Message<T>>::empty(),
        forall|bucket: int| #[trigger]
            Seq::<Message<T>>::empty().filter(waits_in(time, bucket)) == Seq::<
                Message<T>,
            >::empty(),
{
    lemma_filter_whole_or_nothing(Seq::<Message<T>>::empty(), due_at(time));
    assert forall|bucket: int| #[trigger]
        Seq::<Message<T>>::empty().filter(waits_in(time, bucket)) == Seq::<
            Message<T>,
        >::empty() by {
        lemma_filter_whole_or_nothing(Seq::<Message<T>>::empty(), waits_in(time, bucket));
    }
}

/// `held` is what a look through `row`, from its back to its front, has made
/// of the bucket when `left` messages are still to be looked at: those stand
/// untouched at the front, and behind them, in whatever order, the messages
/// looked at that stay.
pub open spec fn looked_down_to<T>(
    row: Seq<Message<T>>,
    left: int,
    held: Seq<Message<T>>,
    time: u64,
    bucket: int,
) -> bool {
    &&& 0 <= left <= row.len()
    &&& left <= held.len()
    &&& held.take(left) == row.take(left)
    &&& held.to_multiset() == row.take(left).to_multiset().add(
        row.skip(left).reverse().filter(waits_in(time, bucket)).to_multiset(),
    )
}

/// A look begins with the whole row still to be looked at.
pub proof fn lemma_look_begins<T>(row: Seq<Message<T>>, time: u64, bucket: int)
    ensures
        looked_down_to(row, row.len() as int, row, time, bucket),
        row.skip(row.len() as int).reverse() == Seq::<Message<T>>::empty(),
{
    broadcast use vstd::multiset::group_multiset_axioms;

    let seen = row.skip(row.len() as int).reverse();
    assert(seen =~= Seq::<Message<T>>::empty());
    lemma_nothing_seen::<T>(time);
    lemma_empty_row(seen.filter(waits_in(time, bucket)));
    assert(row.take(row.len() as int) =~= row);
    assert(row.to_multiset().add(seen.filter(waits_in(time, bucket)).to_multiset())
        =~= row.to_multiset());
}

/// One more message looked at: the last of those that were left. Whether it
/// stays where it stands or the last message of the bucket is moved into its
/// place, the rest of the look goes on from a bucket as `looked_down_to`
/// describes it.
pub proof fn lemma_look_goes_on<T>(
    row: Seq<Message<T>>,
    left: int,
    held: Seq<Message<T>>,
    time: u64,
    bucket: int,
)
    requires
        0 <= left < row.len(),
        looked_down_to(row, left + 1, held, time, bucket),
    ensures
        held[left] == row[left],
        row.skip(left).reverse() == row.skip(left + 1).reverse().push(row[left]),
        waits_in(time, bucket)(row[left]) ==> looked_down_to(row, left, held, time, bucket),
        !waits_in(time, bucket)(row[left]) ==> looked_down_to(
            row,
            left,
            held.update(left, held.last()).drop_last(),
            time,
            bucket,
        ),
{
    broadcast use vstd::multiset::group_multiset_axioms;

    let message = row[left];
    let seen = row.skip(left + 1).reverse();
    let gone = held.update(left, held.last()).drop_last();
    assert(held.take(left + 1)[left] == held[left]);
    assert(row.take(left + 1)[left] == message);
    assert(row.take(left + 1) =~= row.take(left).push(message));
    to_multiset_build(row.take(left), message);
    assert(row.skip(left).reverse() =~= seen.push(message));
    seen.lemma_filter_push(message, waits_in(time, bucket));
    to_multiset_build(seen.filter(waits_in(time, bucket)), message);
    lemma_swap_remove(held, left);
    assert(held.take(left + 1).take(left) =~= held.take(left));
    assert(row.take(left + 1).take(left) =~= row.take(left));
    assert(gone.take(left) =~= held.take(left));
    if waits_in(time, bucket)(message) {
        assert(held.to_multiset() =~= row.take(left).to_multiset().add(
            seen.push(message).filter(waits_in(time, bucket)).to_multiset(),
        ));
    } else {
        assert(gone.to_multiset() =~= row.take(left).to_multiset().add(
            seen.push(message).filter(waits_in(time, bucket)).to_multiset(),
        ));
    }
}

/// A look that has left nothing has kept exactly the messages that stay.
pub proof fn lemma_look_ends<T>(
    row: Seq<Message<T>>,
    held: Seq<Message<T>>,
    time: u64,
    bucket: int,
)
    requires
        looked_down_to(row, 0, held, time, bucket),
    ensures
        held.to_multiset() == row.reverse().filter(waits_in(time, bucket)).to_multiset(),
        row.skip(0) == row,
{
    broadcast use vstd::multiset::group_multiset_axioms;

    assert(row.skip(0) =~= row);
    lemma_empty_row(row.take(0));
    assert(held.to_multiset() =~= row.reverse().filter(waits_in(time, bucket)).to_multiset());
}

/// Where the messages filed in `bucket` earlier in a tick stand behind those
/// that it held, a look through the bucket releases and moves what a look
/// through the earlier holdings alone would, and keeps the newcomers.
pub proof fn lemma_newcomers_stay<T>(
    held: Seq<Message<T>>,
    earlier: Seq<Message<T>>,
    time: u64,
    bucket: int,
)
    ensures
        ({
            let newcomers = earlier.filter(waits_in(time, bucket));
            let row = held + newcomers;
            &&& row.reverse().filter(due_at(time)) == held.reverse().filter(due_at(time))
            &&& forall|other: int|
                other != bucket ==> #[trigger] row.reverse().filter(waits_in(time, other))
                    == held.reverse().filter(waits_in(time, other))
            &&& row.reverse().filter(waits_in(time, bucket)).to_multiset() == (earlier
                + held.reverse()).filter(waits_in(time, bucket)).to_multiset()
        }),
{
    broadcast use vstd::multiset::group_multiset_axioms;

    let newcomers = earlier.filter(waits_in(time, bucket));
    let row = held + newcomers;
    let back = newcomers.reverse();
    assert(row.reverse() =~= back + held.reverse());
    assert forall|place: int| 0 <= place < back.len() implies waits_in(time, bucket)(
        #[trigger] back[place],
    ) by {
        earlier.lemma_filter_pred(waits_in(time, bucket), back.len() - 1 - place);
    }
    lemma_filter_whole_or_nothing(back, due_at(time));
    Seq::filter_distributes_over_add(back, held.reverse(), due_at(time));
    assert(Seq::<Message<T>>::empty() + held.reverse().filter(due_at(time))
        =~= held.reverse().filter(due_at(time)));
    assert forall|other: int| other != bucket implies #[trigger] row.reverse().filter(
        waits_in(time, other),
    ) == held.reverse().filter(waits_in(time, other)) by {
        lemma_filter_whole_or_nothing(back, waits_in(time, other));
        Seq::filter_distributes_over_add(back, held.reverse(), waits_in(time, other));
        assert(Seq::<Message<T>>::empty() + held.reverse().filter(waits_in(time, other))
            =~= held.reverse().filter(waits_in(time, other)));
    }
    lemma_filter_whole_or_nothing(back, waits_in(time, bucket));
    Seq::filter_distributes_over_add(back, held.reverse(), waits_in(time, bucket));
    Seq::filter_distributes_over_add(earlier, held.reverse(), waits_in(time, bucket));
    newcomers.lemma_reverse_to_multiset();
    lemma_multiset_commutative(
        back,
        held.reverse().filter(waits_in(time, bucket)),
    );
    lemma_multiset_commutative(
        newcomers,
        held.reverse().filter(waits_in(time, bucket)),
    );
}

/// The messages that a tick has looked at once it is done with the first
/// `count` buckets.
pub open spec fn scanned_so_far<T>(start: BusView<T>, time: u64, count: nat) -> Seq<Message<T>> {
    start.pending + looked_through(start.buckets, time, count)
}

/// `now` is what a tick at `time` has made of `start` once it is done with
/// the pending messages and the first `count` buckets.
pub open spec fn done_with<T>(start: BusView<T>, time: u64, count: nat, now: BusView<T>) -> bool {
    let seen = scanned_so_far(start, time, count);
    &&& now.well_formed()
    &&& now.pending == Seq::<Message<T>>::empty()
    &&& now.ready == start.ready + payloads(seen.filter(due_at(time)))
    &&& forall|bucket: int|
        0 <= bucket < BUCKETS ==> if bucket < count && has_turn(bucket, time) {
            (#[trigger] now.buckets[bucket]).to_multiset() == seen.filter(
                waits_in(time, bucket),
            ).to_multiset()
        } else {
            now.buckets[bucket] == start.buckets[bucket] + seen.filter(waits_in(time, bucket))
        }
}

/// A look through bucket `count` carries a tick from being done with the first
/// `count` buckets to being done with one more.
pub proof fn lemma_turn_taken<T>(
    start: BusView<T>,
    time: u64,
    count: nat,
    before: BusView<T>,
    after: BusView<T>,
)
    requires
        start.well_formed(),
        count < BUCKETS,
        has_turn(count as int, time),
        done_with(start, time, count, before),
        after.well_formed(),
        after.pending == before.pending,
        after.ready == before.ready + payloads(
            before.buckets[count as int].reverse().filter(due_at(time)),
        ),
        after.buckets[count as int].to_multiset() == before.buckets[count as int].reverse().filter(
            waits_in(time, count as int),
        ).to_multiset(),
        forall|other: int|
            0 <= other < BUCKETS && other != count ==> #[trigger] after.buckets[other]
                == before.buckets[other] + before.buckets[count as int].reverse().filter(
                waits_in(time, other),
            ),
    ensures
        done_with(start, time, count + 1, after),
{
    broadcast use vstd::multiset::group_multiset_axioms;

    let seen = scanned_so_far(start, time, count);
    let held = start.buckets[count as int];
    let more = scanned_so_far(start, time, count + 1);
    assert(more =~= seen + held.reverse());
    lemma_newcomers_stay(held, seen, time, count as int);
    assert(before.buckets[count as int] == held + seen.filter(waits_in(time, count as int)));
    Seq::filter_distributes_over_add(seen, held.reverse(), due_at(time));
    assert(after.ready =~= start.ready + payloads(more.filter(due_at(time))));
    assert forall|bucket: int| 0 <= bucket < BUCKETS implies if bucket < count + 1 && has_turn(
        bucket,
        time,
    ) {
        (#[trigger] after.buckets[bucket]).to_multiset() == more.filter(
            waits_in(time, bucket),
        ).to_multiset()
    } else {
        after.buckets[bucket] == start.buckets[bucket] + more.filter(waits_in(time, bucket))
    } by {
        Seq::filter_distributes_over_add(seen, held.reverse(), waits_in(time, bucket));
        if bucket != count {
            let arrived = held.reverse().filter(waits_in(time, bucket));
            assert(after.buckets[bucket] == before.buckets[bucket] + arrived);
            if bucket < count && has_turn(bucket, time) {
                lemma_multiset_commutative(before.buckets[bucket], arrived);
                lemma_multiset_commutative(
                    seen.filter(waits_in(time, bucket)),
                    arrived,
                );
            } else {
                assert(after.buckets[bucket] =~= start.buckets[bucket] + more.filter(
                    waits_in(time, bucket),
                ));
            }
        }
    }
}

} // verus!
