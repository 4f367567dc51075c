//! The bus itself: messages are handed in, wait in delay buckets while the
//! caller's clock advances, and are handed out once they are due.

use vstd::prelude::*;
use std::collections::VecDeque;
use crate::index::{buffer_index_for_time_offset, BUCKETS};
use crate::message::Message;
use crate::model::{due_at, payloads, waits_in, BusView};
use crate::progress::{
    done_with, lemma_look_at, lemma_look_begins, lemma_look_ends, lemma_look_goes_on,
    lemma_nothing_seen, lemma_turn_taken, looked_down_to, scanned_so_far,
};

verus! {

/// Buffers messages and releases each one at a tick that is not before its
/// delivery time.
pub struct Bus<T> {
    /// Messages handed in since the last tick, oldest at the front.
    pending: VecDeque<Message<T>>,
    /// Payloads released and not yet taken, oldest at the front.
    ready: VecDeque<T>,
    /// Messages that wait, each in the bucket of the delay it had left when it
    /// was last looked at.
    buffers: [Vec<Message<T>>; 32],
}

impl<T> View for Bus<T> {
    type V = BusView<T>;

    closed spec fn view(&self) -> BusView<T> {
        BusView {
            pending: self.pending@,
            buckets: Seq::new(BUCKETS as nat, |bucket: int| self.buffers@[bucket]@),
            ready: self.ready@,
        }
    }
}

impl<T> Bus<T> {
    /// A bus always has its `BUCKETS` buckets.
    pub proof fn lemma_well_formed(&self)
        ensures
            self@.well_formed(),
    {
    }

    /// A bus that holds nothing.
    pub fn new() -> (bus: Bus<T>)
        ensures
            bus@.well_formed(),
            bus@.pending == Seq::<Message<T>>::empty(),
            bus@.ready == Seq::<T>::empty(),
            forall|bucket: int|
                0 <= bucket < BUCKETS ==> #[trigger] bus@.buckets[bucket] == Seq::<
                    Message<T>,
                >::empty(),
            forall|now: u64| bus@.punctual(now),
    {
        Bus {
            pending: VecDeque::new(),
            ready: VecDeque::new(),
            buffers: [
                Vec::new(),
                Vec::new(),
                Vec::new(),
                Vec::new(),
                Vec::new(),
                Vec::new(),
                Vec::new(),
                Vec::new(),
                Vec::new(),
                Vec::new(),
                Vec::new(),
                Vec::new(),
                Vec::new(),
                Vec::new(),
                Vec::new(),
                Vec::new(),
                Vec::new(),
                Vec::new(),
                Vec::new(),
                Vec::new(),
                Vec::new(),
                Vec::new(),
                Vec::new(),
                Vec::new(),
                Vec::new(),
                Vec::new(),
                Vec::new(),
                Vec::new(),
                Vec::new(),
                Vec::new(),
                Vec::new(),
                Vec::new(),
            ],
        }
    }

    /// Hands `message` in. It is looked at, and released or filed in a
    /// bucket, at the next tick.
    pub fn send(&mut self, message: Message<T>)
        ensures
            final(self)@ == (BusView { pending: old(self)@.pending.push(message), ..old(self)@ }),
    {
        self.pending.push_back(message);
        assert(self@.buckets =~= old(self)@.buckets);
    }

    /// Takes the oldest released payload, if there is one.
    pub fn try_recv(&mut self) -> (taken: Option<T>)
        ensures
            old(self)@.ready.len() == 0 ==> taken.is_none() && final(self)@ == old(self)@,
            old(self)@.ready.len() > 0 ==> taken == Some(old(self)@.ready.first()) && final(self)@
                == (BusView { ready: old(self)@.ready.drop_first(), ..old(self)@ }),
    {
        let taken = self.ready.pop_front();
        assert(self@.buckets =~= old(self)@.buckets);
        assert(self@.ready =~= if old(self)@.ready.len() > 0 {
            old(self)@.ready.drop_first()
        } else {
            old(self)@.ready
        });
        taken
    }

    /// Advances the clock to `time`. Every pending message is looked at,
    /// front to back, then every message of each bucket that has its turn at
    /// `time`, lowest bucket first and each from its back to its front. A
    /// message that is due is released; any other waits in the bucket of the
    /// delay it has left.
    pub fn tick(&mut self, time: u64)
        ensures
            old(self)@.ticked(time, final(self)@),
    {
        let ghost start = self@;
        self.drain_input(time);
        proof {
            assert(scanned_so_far(start, time, 0) =~= start.pending);
        }
        let mut bucket: usize = 0;
        while bucket < BUCKETS
            invariant
                bucket <= BUCKETS,
                start.well_formed(),
                done_with(start, time, bucket as nat, self@),
            decreases BUCKETS - bucket,
        {
            let ghost before = self@;
            let every: u64 = (bucket + 1) as u64;
            if time % every == 0 {
                self.scan_bucket(bucket, time);
                proof {
                    lemma_turn_taken(start, time, bucket as nat, before, self@);
                }
            }
            bucket = bucket + 1;
        }
    }

    /// Releases the payload of `message`.
    fn deliver(&mut self, message: Message<T>)
        ensures
            final(self)@ == (BusView {
                ready: old(self)@.ready.push(message.payload()),
                ..old(self)@
            }),
    {
        self.ready.push_back(message.into_payload());
        assert(self@.buckets =~= old(self)@.buckets);
    }

    /// Puts `message` behind the others in `bucket`.
    fn file(&mut self, bucket: usize, message: Message<T>)
        requires
            bucket < BUCKETS,
        ensures
            final(self)@ == (BusView {
                buckets: old(self)@.buckets.update(
                    bucket as int,
                    old(self)@.buckets[bucket as int].push(message),
                ),
                ..old(self)@
            }),
    {
        self.buffers[bucket].push(message);
        assert(self@.buckets =~= old(self)@.buckets.update(
            bucket as int,
            old(self)@.buckets[bucket as int].push(message),
        ));
    }

    /// Looks at every pending message, front to back: a due one is released,
    /// any other is filed in the bucket of the delay it has left.
    fn drain_input(&mut self, time: u64)
        ensures
            final(self)@.well_formed(),
            final(self)@.pending == Seq::<Message<T>>::empty(),
            final(self)@.ready == old(self)@.ready + payloads(
                old(self)@.pending.filter(due_at(time)),
            ),
            forall|bucket: int|
                0 <= bucket < BUCKETS ==> #[trigger] final(self)@.buckets[bucket] == old(
                    self,
                )@.buckets[bucket] + old(self)@.pending.filter(waits_in(time, bucket)),
    {
        let ghost start = self@;
        let ghost mut seen: Seq<Message<T>> = Seq::empty();
        proof {
            lemma_nothing_seen::<T>(time);
        }
        loop
            invariant
                self@.well_formed(),
                start.pending == seen + self@.pending,
                self@.ready == start.ready + payloads(seen.filter(due_at(time))),
                forall|bucket: int|
                    0 <= bucket < BUCKETS ==> #[trigger] self@.buckets[bucket]
                        == start.buckets[bucket] + seen.filter(waits_in(time, bucket)),
            ensures
                self@.pending.len() == 0,
            decreases self@.pending.len(),
        {
            let ghost before = self@;
            match self.pending.pop_front() {
                None => {
                    break ;
                },
                Some(message) => {
                    proof {
                        lemma_look_at(seen, message, time);
                        assert(self@.buckets =~= before.buckets);
                        assert(seen.push(message) + self@.pending =~= seen + before.pending);
                    }
                    if message.delivery_time() <= time {
                        self.deliver(message);
                    } else {
                        let bucket = buffer_index_for_time_offset(message.delivery_time() - time);
                        self.file(bucket, message);
                    }
                    proof {
                        seen = seen.push(message);
                    }
                },
            }
        }
        assert(seen =~= start.pending);
    }

    /// Takes the message at `place` out of `bucket`; the last message of the
    /// bucket moves into its place.
    fn take(&mut self, bucket: usize, place: usize) -> (message: Message<T>)
        requires
            bucket < BUCKETS,
            place < old(self)@.buckets[bucket as int].len(),
        ensures
            message == old(self)@.buckets[bucket as int][place as int],
            final(self)@ == (BusView {
                buckets: old(self)@.buckets.update(
                    bucket as int,
                    old(self)@.buckets[bucket as int].update(
                        place as int,
                        old(self)@.buckets[bucket as int].last(),
                    ).drop_last(),
                ),
                ..old(self)@
            }),
    {
        let message = self.buffers[bucket].swap_remove(place);
        assert(self@.buckets =~= old(self)@.buckets.update(
            bucket as int,
            old(self)@.buckets[bucket as int].update(
                place as int,
                old(self)@.buckets[bucket as int].last(),
            ).drop_last(),
        ));
        message
    }

    /// The delivery time of the message at `place` in `bucket`.
    fn time_at(&self, bucket: usize, place: usize) -> (time: u64)
        requires
            bucket < BUCKETS,
            place < self@.buckets[bucket as int].len(),
        ensures
            time == self@.buckets[bucket as int][place as int].delivery_time(),
    {
        self.buffers[bucket][place].delivery_time()
    }

    /// Number of messages in `bucket`.
    fn count_in(&self, bucket: usize) -> (count: usize)
        requires
            bucket < BUCKETS,
        ensures
            count == self@.buckets[bucket as int].len(),
    {
        self.buffers[bucket].len()
    }

    /// Looks at every message of `bucket`, from its back to its front: a
    /// due one is released, one whose remaining delay belongs to another
    /// bucket moves there, any other stays.
    fn scan_bucket(&mut self, bucket: usize, time: u64)
        requires
            bucket < BUCKETS,
        ensures
            final(self)@.well_formed(),
            final(self)@.pending == old(self)@.pending,
            final(self)@.ready == old(self)@.ready + payloads(
                old(self)@.buckets[bucket as int].reverse().filter(due_at(time)),
            ),
            final(self)@.buckets[bucket as int].to_multiset() == old(
                self,
            )@.buckets[bucket as int].reverse().filter(
                waits_in(time, bucket as int),
            ).to_multiset(),
            forall|other: int|
                0 <= other < BUCKETS && other != bucket ==> #[trigger] final(self)@.buckets[other]
                    == old(self)@.buckets[other] + old(
                    self,
                )@.buckets[bucket as int].reverse().filter(waits_in(time, other)),
    {
        let ghost start = self@;
        let ghost row = start.buckets[bucket as int];
        let mut left = self.count_in(bucket);
        proof {
            lemma_look_begins(row, time, bucket as int);
            lemma_nothing_seen::<T>(time);
        }
        while left > 0
            invariant
                bucket < BUCKETS,
                self@.well_formed(),
                row == start.buckets[bucket as int],
                looked_down_to(row, left as int, self@.buckets[bucket as int], time, bucket as int),
                self@.pending == start.pending,
                self@.ready == start.ready + payloads(
                    row.skip(left as int).reverse().filter(due_at(time)),
                ),
                forall|other: int|
                    0 <= other < BUCKETS && other != bucket ==> #[trigger] self@.buckets[other]
                        == start.buckets[other] + row.skip(left as int).reverse().filter(
                        waits_in(time, other),
                    ),
            decreases left,
        {
            left = left - 1;
            proof {
                lemma_look_goes_on(
                    row,
                    left as int,
                    self@.buckets[bucket as int],
                    time,
                    bucket as int,
                );
                lemma_look_at(row.skip(left + 1).reverse(), row[left as int], time);
            }
            let due_time = self.time_at(bucket, left);
            if due_time <= time {
                let message = self.take(bucket, left);
                self.deliver(message);
            } else {
                let target = buffer_index_for_time_offset(due_time - time);
                if target != bucket {
                    let message = self.take(bucket, left);
                    self.file(target, message);
                }
            }
        }
        proof {
            lemma_look_ends(row, self@.buckets[bucket as int], time, bucket as int);
        }
    }
}

} // verus!
