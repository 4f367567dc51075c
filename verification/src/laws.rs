//! What holds of every tick, and of every run of ticks.

use vstd::prelude::*;
use vstd::multiset::Multiset;
use vstd::seq_lib::{lemma_multiset_commutative, to_multiset_build};
use crate::index::{lemma_bucket_index_below_offset, lemma_bucket_index_range, BUCKETS};
use crate::message::Message;
use crate::rows::{lemma_empty_row, lemma_passed, lemma_passed_count};
use crate::model::{
    due_at, has_turn, home, is_due, looked_through, next_turn, nothing_handed_in, payloads,
    ticks_in_turn, waiting, waits_in, BusView, Step,
};

verus! {

/// The messages of `row` that wait in one of the first `count` buckets after a
/// look at tick `time`, each as often as it occurs in `row`.
spec fn sorted_away<T>(row: Seq<Message<T>>, time: u64, count: nat) -> Multiset<Message<T>>
    decreases count,
{
    if count == 0 {
        Multiset::empty()
    } else {
        sorted_away(row, time, (count - 1) as nat).add(
            row.filter(waits_in(time, count - 1)).to_multiset(),
        )
    }
}

/// One more message in `row` is one more sorted away, if it waits in one of
/// the buckets counted.
proof fn lemma_sorted_away_push<T>(row: Seq<Message<T>>, message: Message<T>, time: u64, count: nat)
    ensures
        sorted_away(row.push(message), time, count) == if !is_due(message, time) && home(
            message,
            time,
        ) < count {
            sorted_away(row, time, count).insert(message)
        } else {
            sorted_away(row, time, count)
        },
    decreases count,
{
    broadcast use vstd::multiset::group_multiset_axioms;

    if count > 0 {
        let bucket = count - 1;
        lemma_sorted_away_push(row, message, time, bucket as nat);
        row.lemma_filter_push(message, waits_in(time, bucket));
        to_multiset_build(row.filter(waits_in(time, bucket)), message);
        assert(sorted_away(row.push(message), time, count) =~= if !is_due(message, time) && home(
            message,
            time,
        ) < count {
            sorted_away(row, time, count).insert(message)
        } else {
            sorted_away(row, time, count)
        });
    }
}

/// A look at tick `time` parts the messages of `row` into those released and
/// those that wait, each in one bucket.
proof fn lemma_released_or_sorted_away<T>(row: Seq<Message<T>>, time: u64)
    ensures
        row.filter(due_at(time)).to_multiset().add(sorted_away(row, time, BUCKETS as nat))
            == row.to_multiset(),
    decreases row.len(),
{
    broadcast use vstd::multiset::group_multiset_axioms;

    if row.len() == 0 {
        lemma_sorted_away_of_none(row, time, BUCKETS as nat);
        assert(row.filter(due_at(time)) =~= row) by {
            reveal(Seq::filter);
        }
        assert(row.filter(due_at(time)).to_multiset().add(sorted_away(row, time, BUCKETS as nat))
            =~= row.to_multiset());
    } else {
        let front = row.drop_last();
        let message = row.last();
        assert(front.push(message) =~= row);
        lemma_released_or_sorted_away(front, time);
        lemma_sorted_away_push(front, message, time, BUCKETS as nat);
        front.lemma_filter_push(message, due_at(time));
        to_multiset_build(front.filter(due_at(time)), message);
        to_multiset_build(front, message);
        if !is_due(message, time) {
            lemma_bucket_index_range(
                (message.delivery_time() - time) as nat,
                home(message, time),
            );
        }
        assert(row.filter(due_at(time)).to_multiset().add(sorted_away(row, time, BUCKETS as nat))
            =~= row.to_multiset());
    }
}

/// Of no messages, none is sorted away.
proof fn lemma_sorted_away_of_none<T>(row: Seq<Message<T>>, time: u64, count: nat)
    requires
        row.len() == 0,
    ensures
        sorted_away(row, time, count) == Multiset::<Message<T>>::empty(),
    decreases count,
{
    broadcast use vstd::multiset::group_multiset_axioms;

    if count > 0 {
        lemma_sorted_away_of_none(row, time, (count - 1) as nat);
        assert(row.filter(waits_in(time, count - 1)) =~= row) by {
            reveal(Seq::filter);
        }
        lemma_empty_row(row);
        assert(sorted_away(row, time, count) =~= Multiset::<Message<T>>::empty());
    }
}

/// The messages of the first `count` buckets that a tick at `time` does not
/// look at.
spec fn left_alone<T>(buckets: Seq<Seq<Message<T>>>, time: u64, count: nat) -> Multiset<
    Message<T>,
>
    decreases count,
{
    if count == 0 {
        Multiset::empty()
    } else if has_turn(count - 1, time) {
        left_alone(buckets, time, (count - 1) as nat)
    } else {
        left_alone(buckets, time, (count - 1) as nat).add(buckets[count - 1].to_multiset())
    }
}

/// Every message that waits is looked at or left alone.
proof fn lemma_looked_at_or_left_alone<T>(buckets: Seq<Seq<Message<T>>>, time: u64, count: nat)
    ensures
        looked_through(buckets, time, count).to_multiset().add(left_alone(buckets, time, count))
            == waiting(buckets, count),
    decreases count,
{
    broadcast use vstd::multiset::group_multiset_axioms;

    if count == 0 {
        lemma_empty_row(looked_through(buckets, time, count));
    } else {
        let bucket = count - 1;
        lemma_looked_at_or_left_alone(buckets, time, bucket as nat);
        if has_turn(bucket, time) {
            buckets[bucket].lemma_reverse_to_multiset();
            lemma_multiset_commutative(
                looked_through(buckets, time, bucket as nat),
                buckets[bucket].reverse(),
            );
        }
    }
    assert(looked_through(buckets, time, count).to_multiset().add(
        left_alone(buckets, time, count),
    ) =~= waiting(buckets, count));
}

/// After a tick, the first `count` buckets hold what was left alone in them
/// and what the tick sorted away into them.
proof fn lemma_waiting_after_tick<T>(before: BusView<T>, time: u64, after: BusView<T>, count: nat)
    requires
        before.ticked(time, after),
        count <= BUCKETS,
    ensures
        waiting(after.buckets, count) == left_alone(before.buckets, time, count).add(
            sorted_away(before.scanned(time), time, count),
        ),
    decreases count,
{
    broadcast use vstd::multiset::group_multiset_axioms;

    if count > 0 {
        let bucket = count - 1;
        lemma_waiting_after_tick(before, time, after, bucket as nat);
        if !has_turn(bucket, time) {
            lemma_multiset_commutative(before.buckets[bucket], before.filed(time, bucket));
        }
    }
    assert(waiting(after.buckets, count) =~= left_alone(before.buckets, time, count).add(
        sorted_away(before.scanned(time), time, count),
    ));
}

/// A message handed in is held, once more than before.
pub proof fn lemma_handed_in_is_held<T>(before: BusView<T>, message: Message<T>, after: BusView<T>)
    requires
        after == (BusView { pending: before.pending.push(message), ..before }),
    ensures
        after.held() == before.held().insert(message),
{
    broadcast use vstd::multiset::group_multiset_axioms;

    to_multiset_build(before.pending, message);
    assert(after.held() =~= before.held().insert(message));
}

/// A tick releases only messages that are due.
pub proof fn lemma_never_early<T>(before: BusView<T>, time: u64, place: int)
    requires
        0 <= place < before.released(time).len(),
    ensures
        before.released(time)[place].delivery_time() <= time,
{
    before.scanned(time).lemma_filter_pred(due_at(time), place);
}

/// A tick neither loses a message nor makes one twice: the messages held
/// before it are those held after it together with those it released, each
/// as often on one side as on the other.
pub proof fn lemma_tick_conserves<T>(before: BusView<T>, time: u64, after: BusView<T>)
    requires
        before.ticked(time, after),
    ensures
        before.held() == after.held().add(before.released(time).to_multiset()),
{
    broadcast use vstd::multiset::group_multiset_axioms;

    lemma_looked_at_or_left_alone(before.buckets, time, BUCKETS as nat);
    lemma_waiting_after_tick(before, time, after, BUCKETS as nat);
    lemma_released_or_sorted_away(before.scanned(time), time);
    lemma_multiset_commutative(
        before.pending,
        looked_through(before.buckets, time, BUCKETS as nat),
    );
    lemma_empty_row(after.pending);
    let looked = looked_through(before.buckets, time, BUCKETS as nat).to_multiset();
    let alone = left_alone(before.buckets, time, BUCKETS as nat);
    let sorted = sorted_away(before.scanned(time), time, BUCKETS as nat);
    let released = before.released(time).to_multiset();
    assert(before.scanned(time).to_multiset() == before.pending.to_multiset().add(looked));
    assert(released.add(sorted) == before.scanned(time).to_multiset());
    assert(looked.add(alone) == waiting(before.buckets, BUCKETS as nat));
    assert(waiting(after.buckets, BUCKETS as nat) == alone.add(sorted));
    assert(after.held() =~= alone.add(sorted));
    assert(before.held() =~= before.pending.to_multiset().add(looked).add(alone));
    assert(before.held() =~= after.held().add(released));
}


/// The next turn of a bucket comes after `now`, and no more ticks after it
/// than the bucket's number and one.
proof fn lemma_next_turn_near(bucket: int, now: u64)
    requires
        0 <= bucket,
    ensures
        now < next_turn(bucket, now) <= now + bucket + 1,
{
    let every = bucket + 1;
    vstd::arithmetic::div_mod::lemma_fundamental_div_mod(now as int, every);
    vstd::arithmetic::div_mod::lemma_mod_bound(now as int, every);
    assert((now as int / every + 1) * every == every * (now as int / every) + every)
        by (nonlinear_arith);
}

/// A tick without a turn for `bucket` leaves its next turn where it was.
proof fn lemma_next_turn_stays(bucket: int, now: u64)
    requires
        0 <= bucket,
        now < u64::MAX,
        !has_turn(bucket, (now + 1) as u64),
    ensures
        next_turn(bucket, (now + 1) as u64) == next_turn(bucket, now),
{
    let every = bucket + 1;
    let whole = now as int / every;
    let rest = now as int % every;
    vstd::arithmetic::div_mod::lemma_fundamental_div_mod(now as int, every);
    vstd::arithmetic::div_mod::lemma_mod_bound(now as int, every);
    if rest + 1 < every {
        vstd::arithmetic::div_mod::lemma_fundamental_div_mod_converse(
            now + 1,
            every,
            whole,
            rest + 1,
        );
    } else {
        assert(every * whole + every == (whole + 1) * every) by (nonlinear_arith);
        vstd::arithmetic::div_mod::lemma_fundamental_div_mod_converse(
            now + 1,
            every,
            whole + 1,
            0,
        );
    }
}

/// A message that a tick looks at in the buckets waits in a bucket that has
/// its turn.
proof fn lemma_looked_at_waited<T>(
    buckets: Seq<Seq<Message<T>>>,
    time: u64,
    count: nat,
    message: Message<T>,
)
    requires
        looked_through(buckets, time, count).contains(message),
    ensures
        exists|bucket: int, place: int|
            0 <= bucket < count && has_turn(bucket, time) && 0 <= place < buckets[bucket].len()
                && #[trigger] buckets[bucket][place] == message,
    decreases count,
{
    if count > 0 {
        let bucket = count - 1;
        let before = looked_through(buckets, time, bucket as nat);
        let at = choose|at: int|
            0 <= at < looked_through(buckets, time, count).len() && looked_through(
                buckets,
                time,
                count,
            )[at] == message;
        if has_turn(bucket, time) && at >= before.len() {
            let place = buckets[bucket].len() - 1 - (at - before.len());
            assert(buckets[bucket][place] == message);
        } else {
            assert(before[at] == message);
            lemma_looked_at_waited(buckets, time, bucket as nat, message);
        }
    }
}

/// A message that a tick files in a bucket has its next turn there no later
/// than the tick at which it falls due.
proof fn lemma_filed_in_time<T>(before: BusView<T>, time: u64, bucket: int, message: Message<T>)
    requires
        0 <= bucket < BUCKETS,
        before.filed(time, bucket).contains(message),
    ensures
        time < message.delivery_time(),
        next_turn(bucket, time) <= message.delivery_time(),
{
    lemma_passed(before.scanned(time), waits_in(time, bucket), message);
    lemma_bucket_index_below_offset((message.delivery_time() - time) as nat);
    lemma_next_turn_near(bucket, time);
}

/// Ticks that follow one another keep the bus punctual. Where the bus is
/// punctual at the end of tick `now`, and the next tick comes at `now` once
/// more or at `now + 1`, the bus is punctual at the end of that tick, and
/// every message that the tick releases from a bucket falls due at exactly
/// that tick.
pub proof fn lemma_tick_keeps_punctual<T>(
    before: BusView<T>,
    now: u64,
    time: u64,
    after: BusView<T>,
)
    requires
        before.well_formed(),
        before.punctual(now),
        now <= time <= now + 1,
        before.ticked(time, after),
    ensures
        after.punctual(time),
        forall|place: int|
            0 <= place < looked_through(before.buckets, time, BUCKETS as nat).len() && is_due(
                #[trigger] looked_through(before.buckets, time, BUCKETS as nat)[place],
                time,
            ) ==> looked_through(before.buckets, time, BUCKETS as nat)[place].delivery_time()
                == time,
{
    let looked = looked_through(before.buckets, time, BUCKETS as nat);
    assert forall|place: int| 0 <= place < looked.len() && is_due(
        #[trigger] looked[place],
        time,
    ) implies looked[place].delivery_time() == time by {
        assert(looked.contains(looked[place]));
        lemma_looked_at_waited(before.buckets, time, BUCKETS as nat, looked[place]);
    }
    assert forall|bucket: int, place: int|
        0 <= bucket < BUCKETS && 0 <= place < after.buckets[bucket].len() implies {
        let message = #[trigger] after.buckets[bucket][place];
        &&& time < message.delivery_time()
        &&& next_turn(bucket, time) <= message.delivery_time()
    } by {
        let message = after.buckets[bucket][place];
        assert(after.buckets[bucket].contains(message));
        if has_turn(bucket, time) {
            vstd::seq_lib::to_multiset_contains(after.buckets[bucket], message);
            vstd::seq_lib::to_multiset_contains(before.filed(time, bucket), message);
            lemma_filed_in_time(before, time, bucket, message);
        } else if place < before.buckets[bucket].len() {
            assert(before.buckets[bucket][place] == message);
            if time != now {
                lemma_next_turn_stays(bucket, now);
                lemma_next_turn_near(bucket, time);
            }
        } else {
            let at = place - before.buckets[bucket].len();
            assert(before.filed(time, bucket)[at] == message);
            assert(before.filed(time, bucket).contains(message));
            lemma_filed_in_time(before, time, bucket, message);
        }
    }
}


/// A tick looks at every message of a bucket that has its turn.
proof fn lemma_turn_looks_at_all<T>(
    buckets: Seq<Seq<Message<T>>>,
    time: u64,
    count: nat,
    bucket: int,
    message: Message<T>,
)
    requires
        0 <= bucket < count,
        has_turn(bucket, time),
    ensures
        looked_through(buckets, time, count).to_multiset().count(message)
            >= buckets[bucket].to_multiset().count(message),
    decreases count,
{
    broadcast use vstd::multiset::group_multiset_axioms;

    let last = count - 1;
    let before = looked_through(buckets, time, last as nat);
    if has_turn(last, time) {
        buckets[last].lemma_reverse_to_multiset();
        lemma_multiset_commutative(before, buckets[last].reverse());
    }
    if bucket < last {
        lemma_turn_looks_at_all(buckets, time, last as nat, bucket, message);
    }
}

/// A message that a tick finds in the bucket in which it belongs is still
/// there after the tick, at whatever place: the bucket holds it at least as
/// often as before.
pub proof fn lemma_unmoved_message_remains<T>(
    before: BusView<T>,
    time: u64,
    after: BusView<T>,
    bucket: int,
    message: Message<T>,
)
    requires
        before.ticked(time, after),
        0 <= bucket < BUCKETS,
        !is_due(message, time),
        home(message, time) == bucket,
    ensures
        after.buckets[bucket].to_multiset().count(message)
            >= before.buckets[bucket].to_multiset().count(message),
{
    broadcast use vstd::multiset::group_multiset_axioms;

    if has_turn(bucket, time) {
        lemma_passed_count(before.scanned(time), waits_in(time, bucket), message);
        lemma_multiset_commutative(
            before.pending,
            looked_through(before.buckets, time, BUCKETS as nat),
        );
        lemma_turn_looks_at_all(before.buckets, time, BUCKETS as nat, bucket, message);
    } else {
        lemma_multiset_commutative(before.buckets[bucket], before.filed(time, bucket));
    }
}

/// A message that is due when the tick looks at it among the pending ones
/// never enters a bucket: the payloads of the due pending messages are the
/// first that the tick releases, in the order in which they were handed in,
/// and no message that the tick files in a bucket is due.
pub proof fn lemma_due_input_released_first<T>(before: BusView<T>, time: u64, after: BusView<T>)
    requires
        before.ticked(time, after),
    ensures
        after.ready == before.ready + payloads(before.pending.filter(due_at(time))) + payloads(
            looked_through(before.buckets, time, BUCKETS as nat).filter(due_at(time)),
        ),
        forall|bucket: int, place: int|
            0 <= bucket < BUCKETS && 0 <= place < before.filed(time, bucket).len() ==> !is_due(
                #[trigger] before.filed(time, bucket)[place],
                time,
            ),
{
    let looked = looked_through(before.buckets, time, BUCKETS as nat);
    Seq::filter_distributes_over_add(before.pending, looked, due_at(time));
    assert(payloads(before.pending.filter(due_at(time)) + looked.filter(due_at(time)))
        =~= payloads(before.pending.filter(due_at(time))) + payloads(
        looked.filter(due_at(time)),
    ));
    assert(after.ready =~= before.ready + payloads(before.pending.filter(due_at(time)))
        + payloads(looked.filter(due_at(time))));
    assert forall|bucket: int, place: int|
        0 <= bucket < BUCKETS && 0 <= place < before.filed(time, bucket).len() implies !is_due(
        #[trigger] before.filed(time, bucket)[place],
        time,
    ) by {
        before.scanned(time).lemma_filter_pred(waits_in(time, bucket), place);
    }
}

/// A punctual bus holds no message in its buckets that has fallen due.
proof fn lemma_punctual_holds_none_due<T>(
    view: BusView<T>,
    now: u64,
    count: nat,
    message: Message<T>,
)
    requires
        view.punctual(now),
        count <= BUCKETS,
        is_due(message, now),
    ensures
        waiting(view.buckets, count).count(message) == 0,
    decreases count,
{
    broadcast use vstd::multiset::group_multiset_axioms;

    if count > 0 {
        let bucket = count - 1;
        lemma_punctual_holds_none_due(view, now, bucket as nat, message);
        vstd::seq_lib::to_multiset_contains(view.buckets[bucket], message);
        if view.buckets[bucket].contains(message) {
            let place = choose|place: int|
                0 <= place < view.buckets[bucket].len() && view.buckets[bucket][place] == message;
            assert(now < view.buckets[bucket][place].delivery_time());
        }
    }
}

/// How often one tick of a run releases `message`, and how often the bus
/// holds it afterwards.
proof fn lemma_step<T>(
    before: BusView<T>,
    now: u64,
    time: u64,
    after: BusView<T>,
    message: Message<T>,
)
    requires
        before.well_formed(),
        before.punctual(now),
        now <= time <= now + 1,
        before.ticked(time, after),
    ensures
        after.punctual(time),
        before.held().count(message) == after.held().count(message) + before.released(
            time,
        ).to_multiset().count(message),
        !is_due(message, time) ==> before.released(time).to_multiset().count(message) == 0,
        is_due(message, time) ==> after.held().count(message) == 0,
{
    broadcast use vstd::multiset::group_multiset_axioms;

    lemma_tick_keeps_punctual(before, now, time, after);
    lemma_tick_conserves(before, time, after);
    lemma_passed_count(before.scanned(time), due_at(time), message);
    if is_due(message, time) {
        lemma_punctual_holds_none_due(after, time, BUCKETS as nat, message);
        lemma_empty_row(after.pending);
    }
}

/// A run of ticks that follow one another keeps the bus punctual: where the
/// first tick finds it punctual, every tick of the run leaves it so.
pub proof fn lemma_run_stays_punctual<T>(run: Seq<Step<T>>, first: u64, step: int)
    requires
        ticks_in_turn(run, first),
        0 <= step < run.len(),
        run[0].before.well_formed(),
        run[0].before.punctual(first),
    ensures
        run[step].before.well_formed(),
        run[step].before.punctual(
            if step == 0 {
                first
            } else {
                (first + step - 1) as u64
            },
        ),
        run[step].after.punctual((first + step) as u64),
    decreases step,
{
    let now = if step == 0 {
        first
    } else {
        (first + step - 1) as u64
    };
    if step > 0 {
        lemma_run_stays_punctual(run, first, step - 1);
        assert(run[step - 1].before.ticked((first + step - 1) as u64, run[step - 1].after));
        assert(run[step].before.buckets == run[step - 1].after.buckets);
    }
    lemma_tick_keeps_punctual(run[step].before, now, (first + step) as u64, run[step].after);
}

/// Every message comes out at its tick. Take a bus that is punctual at tick
/// `first`, as a new one is at every tick, and let ticks follow one another
/// from `first`, with or without messages handed in between them. Then each
/// tick of the run releases a message that is due as often as the bus holds
/// it, so that none is held back, and a message that is not due never.
pub proof fn lemma_run_releases_what_is_due<T>(
    run: Seq<Step<T>>,
    first: u64,
    step: int,
    message: Message<T>,
)
    requires
        ticks_in_turn(run, first),
        0 <= step < run.len(),
        run[0].before.well_formed(),
        run[0].before.punctual(first),
    ensures
        run[step].before.released((first + step) as u64).to_multiset().count(message) == if is_due(
            message,
            (first + step) as u64,
        ) {
            run[step].before.held().count(message)
        } else {
            0
        },
        is_due(message, (first + step) as u64) ==> run[step].after.held().count(message) == 0,
{
    let now = if step == 0 {
        first
    } else {
        (first + step - 1) as u64
    };
    lemma_run_stays_punctual(run, first, step);
    lemma_step(run[step].before, now, (first + step) as u64, run[step].after, message);
}

/// The tick at which a run of ticks from `first` releases a message that
/// falls due at `due`, counted from the start of the run: the tick at `due`,
/// or the first of the run where the message was due before it.
pub open spec fn release_step(first: u64, due: u64) -> int {
    if due <= first {
        0
    } else {
        due - first
    }
}

/// Until the tick that releases it, a run in which nothing is handed in holds
/// `message` as often as at its start.
proof fn lemma_held_until_due<T>(run: Seq<Step<T>>, first: u64, message: Message<T>, step: int)
    requires
        ticks_in_turn(run, first),
        nothing_handed_in(run),
        run[0].before.well_formed(),
        run[0].before.punctual(first),
        0 <= step < run.len(),
        step <= release_step(first, message.delivery_time()),
    ensures
        run[step].before.held().count(message) == run[0].before.held().count(message),
    decreases step,
{
    if step > 0 {
        let last = step - 1;
        lemma_held_until_due(run, first, message, last);
        lemma_run_releases_what_is_due(run, first, last, message);
        lemma_tick_conserves(run[last].before, (first + last) as u64, run[last].after);
        assert(run[step].before.pending == run[last].after.pending);
        assert(run[step].before.buckets == run[last].after.buckets);
    }
}

/// Once the tick that releases it is over, a run in which nothing is handed
/// in holds `message` no more.
proof fn lemma_gone_when_due<T>(run: Seq<Step<T>>, first: u64, message: Message<T>, step: int)
    requires
        ticks_in_turn(run, first),
        nothing_handed_in(run),
        run[0].before.well_formed(),
        run[0].before.punctual(first),
        0 < step < run.len(),
        step > release_step(first, message.delivery_time()),
    ensures
        run[step].before.held().count(message) == 0,
{
    let last = step - 1;
    lemma_run_releases_what_is_due(run, first, last, message);
    assert(run[step].before.pending == run[last].after.pending);
    assert(run[step].before.buckets == run[last].after.buckets);
}

/// Every message is released exactly once, and on time. Take a bus that is
/// punctual at tick `first`, as a new one is at every tick, and let ticks
/// follow one another from `first` with nothing handed in between them. Then
/// the tick at which `message` falls due (the first tick, where it was due
/// before) releases it, as often as the bus held it at the start, and no
/// other tick of the run releases it at all.
pub proof fn lemma_released_once_on_time<T>(
    run: Seq<Step<T>>,
    first: u64,
    step: int,
    message: Message<T>,
)
    requires
        ticks_in_turn(run, first),
        nothing_handed_in(run),
        0 <= step < run.len(),
        run[0].before.well_formed(),
        run[0].before.punctual(first),
    ensures
        run[step].before.released((first + step) as u64).to_multiset().count(message)
            == if step == release_step(first, message.delivery_time()) {
            run[0].before.held().count(message)
        } else {
            0
        },
{
    lemma_run_releases_what_is_due(run, first, step, message);
    if step <= release_step(first, message.delivery_time()) {
        lemma_held_until_due(run, first, message, step);
    } else {
        lemma_gone_when_due(run, first, message, step);
    }
}

} // verus!
