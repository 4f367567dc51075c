//! The payload and delivery-time pair that travels through the bus.

use vstd::prelude::*;

verus! {

/// A value together with the tick at which it falls due.
pub struct Message<T> {
    message: T,
    time: u64,
}

impl<T> Message<T> {
    /// The value carried.
    pub closed spec fn payload(&self) -> T {
        self.message
    }

    /// The tick at or after which the value may be handed out.
    pub closed spec fn spec_delivery_time(&self) -> u64 {
        self.time
    }

    /// A message is its payload and its delivery time, and nothing else.
    pub proof fn lemma_same_parts(self, other: Self)
        requires
            self.payload() == other.payload(),
            self.delivery_time() == other.delivery_time(),
        ensures
            self == other,
    {
    }

    pub fn new(message: T, time: u64) -> (made: Message<T>)
        ensures
            made.payload() == message,
            made.delivery_time() == time,
    {
        Message { message: message, time: time }
    }

    #[verifier::when_used_as_spec(spec_delivery_time)]
    pub fn delivery_time(&self) -> (time: u64)
        ensures
            time == self.delivery_time(),
    {
        self.time
    }

    pub fn into_payload(self) -> (message: T)
        ensures
            message == self.payload(),
    {
        self.message
    }
}

} // verus!
