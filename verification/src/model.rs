//! The bus as a mathematical value, and what one tick makes of it.

use vstd::prelude::*;
use vstd::multiset::Multiset;
use crate::index::{bucket_index, BUCKETS};
use crate::message::Message;

verus! {

/// What a bus holds: the messages handed in and not yet looked at, front
/// first; the delay buckets, lowest first; the payloads released and not yet
/// taken, front first.
pub struct BusView<T> {
    pub pending: Seq<Message<T>>,
    pub buckets: Seq<Seq<Message<T>>>,
    pub ready: Seq<T>,
}

/// Whether `message` may be handed out at tick `time`.
pub open spec fn is_due<T>(message: Message<T>, time: u64) -> bool {
    message.delivery_time() <= time
}

/// The messages that may be handed out at tick `time`.
pub open spec fn due_at<T>(time: u64) -> spec_fn(Message<T>) -> bool {
    |message: Message<T>| is_due(message, time)
}

/// The bucket in which a message that is not yet due at tick `time` waits.
pub open spec fn home<T>(message: Message<T>, time: u64) -> nat {
    bucket_index((message.delivery_time() - time) as nat)
}

/// The messages that go on waiting in `bucket` after a look at tick `time`.
pub open spec fn waits_in<T>(time: u64, bucket: int) -> spec_fn(Message<T>) -> bool {
    |message: Message<T>| !is_due(message, time) && home(message, time) == bucket
}

/// Whether `bucket` is looked through at tick `time`: bucket 0 at every tick,
/// bucket 1 at every second one, and so on.
pub open spec fn has_turn(bucket: int, time: u64) -> bool {
    time as int % (bucket + 1) == 0
}

/// The first tick after `now` at which `bucket` has its turn.
pub open spec fn next_turn(bucket: int, now: u64) -> int {
    (now as int / (bucket + 1) + 1) * (bucket + 1)
}

/// The payloads of `messages`, in their order.
pub open spec fn payloads<T>(messages: Seq<Message<T>>) -> Seq<T> {
    messages.map_values(|message: Message<T>| message.payload())
}

/// The messages of the first `count` buckets that a tick at `time` looks at,
/// in the order in which it does: bucket after bucket among those that have
/// their turn, each from its back to its front.
pub open spec fn looked_through<T>(buckets: Seq<Seq<Message<T>>>, time: u64, count: nat) -> Seq<
    Message<T>,
>
    decreases count,
{
    if count == 0 {
        Seq::empty()
    } else {
        let bucket = count - 1;
        let before = looked_through(buckets, time, bucket as nat);
        if has_turn(bucket, time) {
            before + buckets[bucket].reverse()
        } else {
            before
        }
    }
}

/// The messages that wait in the first `count` buckets, each as often as it
/// occurs there.
pub open spec fn waiting<T>(buckets: Seq<Seq<Message<T>>>, count: nat) -> Multiset<Message<T>>
    decreases count,
{
    if count == 0 {
        Multiset::empty()
    } else {
        waiting(buckets, (count - 1) as nat).add(buckets[count - 1].to_multiset())
    }
}

impl<T> BusView<T> {
    /// One bucket for each of the `BUCKETS` delay ranges.
    pub open spec fn well_formed(self) -> bool {
        self.buckets.len() == BUCKETS
    }

    /// Every message that a tick at `time` looks at, in the order in which it
    /// does: the pending ones front to back, then the buckets that have
    /// their turn.
    pub open spec fn scanned(self, time: u64) -> Seq<Message<T>> {
        self.pending + looked_through(self.buckets, time, BUCKETS as nat)
    }

    /// The messages that a tick at `time` hands out, in the order in which
    /// their payloads are released.
    pub open spec fn released(self, time: u64) -> Seq<Message<T>> {
        self.scanned(time).filter(due_at(time))
    }

    /// The messages that a tick at `time` files in `bucket`, in the order in
    /// which they arrive there.
    pub open spec fn filed(self, time: u64, bucket: int) -> Seq<Message<T>> {
        self.scanned(time).filter(waits_in(time, bucket))
    }

    /// The messages handed in and not yet released, each as often as it is
    /// held.
    pub open spec fn held(self) -> Multiset<Message<T>> {
        self.pending.to_multiset().add(waiting(self.buckets, BUCKETS as nat))
    }

    /// At the end of tick `now` no message that waits is overdue, and each
    /// waits in a bucket whose next turn comes no later than the tick at
    /// which the message falls due.
    pub open spec fn punctual(self, now: u64) -> bool {
        forall|bucket: int, place: int|
            0 <= bucket < BUCKETS && 0 <= place < self.buckets[bucket].len() ==> {
                let message = #[trigger] self.buckets[bucket][place];
                &&& now < message.delivery_time()
                &&& next_turn(bucket, now) <= message.delivery_time()
            }
    }

    /// `next` is what a tick at `time` makes of `self`. Nothing stays
    /// pending. The payloads of the due messages among those looked at join
    /// the ready ones. A bucket that had no turn keeps its messages and
    /// receives behind them those filed in it. A bucket that had its turn
    /// holds exactly the messages filed in it, in no stated order.
    pub open spec fn ticked(self, time: u64, next: Self) -> bool {
        &&& next.well_formed()
        &&& next.pending == Seq::<Message<T>>::empty()
        &&& next.ready == self.ready + payloads(self.released(time))
        &&& forall|bucket: int|
            0 <= bucket < BUCKETS ==> if has_turn(bucket, time) {
                (#[trigger] next.buckets[bucket]).to_multiset() == self.filed(
                    time,
                    bucket,
                ).to_multiset()
            } else {
                next.buckets[bucket] == self.buckets[bucket] + self.filed(time, bucket)
            }
    }
}

/// One tick of a run: the bus as the tick found it and as the tick left it.
pub struct Step<T> {
    pub before: BusView<T>,
    pub after: BusView<T>,
}

/// `run` is a run of ticks that follow one another from tick `first`: the
/// tick at each place comes one tick after the one before it, and finds the
/// buckets as that one left them. Between two ticks messages may be handed
/// in and payloads may be taken.
pub open spec fn ticks_in_turn<T>(run: Seq<Step<T>>, first: u64) -> bool {
    &&& first + run.len() - 1 <= u64::MAX
    &&& forall|step: int|
        0 <= step < run.len() ==> (#[trigger] run[step]).before.ticked(
            (first + step) as u64,
            run[step].after,
        )
    &&& forall|step: int|
        0 < step < run.len() ==> (#[trigger] run[step]).before.buckets == run[step
            - 1].after.buckets
}

/// Nothing is handed in between the ticks of `run`.
pub open spec fn nothing_handed_in<T>(run: Seq<Step<T>>) -> bool {
    forall|step: int|
        0 < step < run.len() ==> (#[trigger] run[step]).before.pending == Seq::<
            Message<T>,
        >::empty()
}

} // verus!
