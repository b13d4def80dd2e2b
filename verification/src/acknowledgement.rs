//! The acknowledgements a connection still has to send.

use vstd::prelude::*;

use crate::constants::TIME_BEFORE_SENDING_ACKS;
use crate::datagram_heap::{run_len, DatagramHeap};
use crate::datagram_range::DatagramRange;
use crate::number::DatagramSequenceNumber;

verus! {

/// The datagram sequence numbers still to be acknowledged, and the time
/// (in nanoseconds) the oldest of them was received.
pub struct OutgoingAcknowledgements {
    acks: DatagramHeap,
    oldest_ack_time: Option<u64>,
}

impl OutgoingAcknowledgements {
    /// The numbers still to be acknowledged, in ascending order.
    pub closed spec fn numbers(&self) -> Seq<nat> {
        self.acks@
    }

    /// The time the oldest unsent acknowledgement was recorded, if any.
    pub closed spec fn oldest_time(&self) -> Option<u64> {
        self.oldest_ack_time
    }

    /// The numbers are in ascending order, and a time is recorded exactly
    /// when some number is waiting.
    pub closed spec fn wf(&self) -> bool {
        &&& self.acks.wf()
        &&& (self.oldest_ack_time is Some) == (self.acks@.len() > 0)
    }

    /// A time is recorded exactly when some number is waiting.
    pub proof fn lemma_time_recorded(&self)
        requires
            self.wf(),
        ensures
            (self.oldest_time() is Some) == (self.numbers().len() > 0),
    {
    }

    /// Recording a datagram while others wait keeps the time of the oldest
    /// waiting one: the acknowledgements fall due `TIME_BEFORE_SENDING_ACKS`
    /// after the first of them arrived, whatever arrives later.
    pub proof fn lemma_insert_keeps_oldest(
        pre: OutgoingAcknowledgements,
        number: nat,
        time: u64,
        post: OutgoingAcknowledgements,
    )
        requires
            pre.wf(),
            pre.numbers().len() > 0,
            OutgoingAcknowledgements::inserted(pre, number, time, post),
        ensures
            pre.oldest_time() is Some,
            post.oldest_time() == pre.oldest_time(),
            post.numbers().len() == pre.numbers().len() + 1,
    {
    }

    /// The effect of recording datagram `number`, arrived at `time`, on
    /// `pre`, giving `post`.
    pub open spec fn inserted(pre: OutgoingAcknowledgements, number: nat, time: u64, post: OutgoingAcknowledgements) -> bool {
        &&& exists|i: int|
            0 <= i <= pre.numbers().len() && post.numbers() == pre.numbers().insert(i, number)
        &&& post.numbers().to_multiset() == pre.numbers().to_multiset().insert(number)
        &&& post.oldest_time() == (if pre.numbers().len() == 0 {
            Some(time)
        } else {
            pre.oldest_time()
        })
    }

    /// No acknowledgement is waiting.
    pub fn new() -> (r: OutgoingAcknowledgements)
        ensures
            r.wf(),
            r.numbers() == Seq::<nat>::empty(),
            r.oldest_time() is None,
    {
        OutgoingAcknowledgements { acks: DatagramHeap::new(), oldest_ack_time: None }
    }

    /// Records that the datagram `number` arrived at `time`. The time is
    /// kept if no other acknowledgement was waiting.
    pub fn insert(&mut self, number: DatagramSequenceNumber, time: u64)
        requires
            old(self).wf(),
        ensures
            final(self).wf(),
            OutgoingAcknowledgements::inserted(*old(self), number@, time, *final(self)),
    {
        let ghost s = self.acks@;
        if self.acks.is_empty() {
            self.oldest_ack_time = Some(time);
        }
        self.acks.push(number);
        proof {
            let i = choose|i: int| 0 <= i <= s.len() && self.acks@ == s.insert(i, number@);
            assert(self.numbers() == old(self).numbers().insert(i, number@));
            assert(OutgoingAcknowledgements::inserted(*old(self), number@, time, *self));
        }
    }

    /// Whether no acknowledgement is waiting.
    pub fn is_empty(&self) -> (r: bool)
        ensures
            r == (self.numbers().len() == 0),
    {
        self.acks.is_empty()
    }

    /// Removes and returns the run of consecutive numbers that starts with
    /// the smallest waiting number.
    pub fn pop_range(&mut self) -> (r: Option<DatagramRange>)
        requires
            old(self).wf(),
        ensures
            final(self).wf(),
            old(self).numbers().len() == 0 ==> r is None && final(self).numbers() == old(self).numbers() && final(self).oldest_time() == old(self).oldest_time(),
            old(self).numbers().len() > 0 ==> (r matches Some(range) && range@ == (
                old(self).numbers()[0],
                (old(self).numbers()[0] + run_len(old(self).numbers()) - 1) as nat,
            ) && final(self).numbers() == old(self).numbers().skip(
                run_len(old(self).numbers()) as int,
            ) && final(self).oldest_time() == (if final(self).numbers().len() == 0 {
                None
            } else {
                old(self).oldest_time()
            })),
    {
        match self.acks.pop_range() {
            Some(range) => {
                if self.acks.is_empty() {
                    self.oldest_ack_time = None;
                }
                Some(range)
            },
            None => None,
        }
    }

    /// Whether the oldest waiting acknowledgement has waited longer than
    /// `TIME_BEFORE_SENDING_ACKS` at `current_time`.
    pub fn should_send_acks(&self, current_time: u64) -> (r: bool)
        ensures
            r == (self.oldest_time() matches Some(t) && current_time > t
                + TIME_BEFORE_SENDING_ACKS),
    {
        match self.oldest_ack_time {
            Some(oldest_ack_time) => current_time.saturating_sub(oldest_ack_time)
                > TIME_BEFORE_SENDING_ACKS,
            None => false,
        }
    }
}

} // verus!
