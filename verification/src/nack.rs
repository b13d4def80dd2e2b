//! The negative acknowledgements a connection still has to send.

use vstd::prelude::*;
use vstd::multiset::Multiset;

use crate::datagram_heap::{run_len, DatagramHeap};
use crate::datagram_range::DatagramRange;
use crate::number::{
    lemma_u24_bound, u24, u24_modulus, wrapping_add_spec, wrapping_lt_spec, wrapping_sub_spec,
    DatagramSequenceNumber,
};

verus! {

/// The most datagrams reported missing because of one received datagram;
/// later gaps are left to the sender's resend timeout.
pub open spec fn max_nacks_per_datagram() -> nat {
    1000
}

/// The `count` numbers that follow `start` on the 24-bit circle, `start`
/// included.
pub open spec fn numbers_from(start: nat, count: nat) -> Seq<nat> {
    Seq::new(count, |i: int| wrapping_add_spec(start, i as nat))
}

/// The number of datagrams reported missing when `number` arrives while
/// `expected` was awaited: the gap between them, at most
/// `max_nacks_per_datagram()`.
pub open spec fn missing_count(expected: nat, number: nat) -> nat {
    let gap = wrapping_sub_spec(number, expected);
    if gap < max_nacks_per_datagram() {
        gap
    } else {
        max_nacks_per_datagram()
    }
}

/// The datagram sequence numbers that were skipped, and the number the
/// next datagram is expected to carry.
pub struct OutgoingNacks {
    nacks: DatagramHeap,
    expected_next_number: DatagramSequenceNumber,
}

impl OutgoingNacks {
    /// The numbers still to be reported missing, in ascending order.
    pub closed spec fn numbers(&self) -> Seq<nat> {
        self.nacks@
    }

    /// The sequence number the next datagram is expected to carry.
    pub closed spec fn expected_next(&self) -> nat {
        self.expected_next_number@
    }

    /// The numbers are kept in ascending order.
    pub closed spec fn wf(&self) -> bool {
        self.nacks.wf()
    }

    /// The effect of datagram `number` arriving on `pre`, giving `post`.
    pub open spec fn handled(pre: OutgoingNacks, number: nat, post: OutgoingNacks) -> bool {
        &&& wrapping_lt_spec(number, pre.expected_next()) ==> post.numbers() == pre.numbers()
            && post.expected_next() == pre.expected_next()
        &&& !wrapping_lt_spec(number, pre.expected_next()) ==> {
            &&& post.numbers().to_multiset() == pre.numbers().to_multiset().add(
                numbers_from(pre.expected_next(), missing_count(pre.expected_next(), number)).to_multiset(),
            )
            &&& post.expected_next() == wrapping_add_spec(number, 1)
        }
    }

    /// Nothing is missing; datagram 0 is expected first.
    pub fn new() -> (r: OutgoingNacks)
        ensures
            r.wf(),
            r.numbers() == Seq::<nat>::empty(),
            r.expected_next() == 0,
    {
        OutgoingNacks { nacks: DatagramHeap::new(), expected_next_number: u24::zero() }
    }

    /// Records that datagram `number` arrived. A datagram from before the
    /// expected one is a duplicate and changes nothing. Otherwise the
    /// skipped numbers from the expected one on (at most
    /// `max_nacks_per_datagram()` of them) are recorded as missing and the
    /// number after `number` becomes the expected one.
    pub fn handle_datagram(&mut self, number: DatagramSequenceNumber)
        requires
            old(self).wf(),
        ensures
            final(self).wf(),
            OutgoingNacks::handled(*old(self), number@, *final(self)),
    {
        proof {
            broadcast use lemma_u24_bound;
            broadcast use vstd::seq_lib::to_multiset_build;
            broadcast use vstd::multiset::group_multiset_axioms;
        }
        if number.wrapping_less_than(self.expected_next_number) {
            // Duplicate datagram
            return;
        }
        let ghost e = self.expected_next_number@;
        let ghost m0 = self.nacks@.to_multiset();
        let mut expected_number = self.expected_next_number;
        // Limit NACKs to 1000 for the datagram and use timeout resend for the rest
        // if this datagram really was valid.
        let mut nack_count: u32 = 0;
        proof {
            vstd::seq_lib::to_multiset_len(numbers_from(e, 0));
            vstd::multiset::lemma_multiset_empty_len(numbers_from(e, 0).to_multiset());
        }
        assert(numbers_from(e, 0).to_multiset() =~= Multiset::<nat>::empty());
        assert(m0.add(Multiset::<nat>::empty()) =~= m0);
        while expected_number.value() != number.value() && nack_count < 1000
            invariant
                self.nacks.wf(),
                nack_count <= 1000,
                nack_count <= wrapping_sub_spec(number@, e),
                expected_number@ == wrapping_add_spec(e, nack_count as nat),
                e < u24_modulus(),
                number@ < u24_modulus(),
                self.nacks@.to_multiset() == m0.add(numbers_from(e, nack_count as nat).to_multiset()),
            decreases 1000 - nack_count,
        {
            let ghost before = self.nacks@.to_multiset();
            self.nacks.push(expected_number);
            assert(numbers_from(e, nack_count as nat + 1) =~= numbers_from(
                e,
                nack_count as nat,
            ).push(expected_number@));
            proof {
                vstd::seq_lib::to_multiset_build(numbers_from(e, nack_count as nat), expected_number@);
            }
            assert(self.nacks@.to_multiset() =~= m0.add(
                numbers_from(e, nack_count as nat + 1).to_multiset(),
            ));
            proof {
                if nack_count as nat == wrapping_sub_spec(number@, e) {
                    assert(expected_number@ == number@);
                }
            }
            expected_number = expected_number.wrapping_add(u24::one());
            nack_count = nack_count + 1;
            assert(expected_number@ == wrapping_add_spec(e, nack_count as nat));
        }
        proof {
            if nack_count < 1000 {
                assert(expected_number@ == number@);
                assert(nack_count as nat == wrapping_sub_spec(number@, e));
            }
        }
        self.expected_next_number = number.wrapping_add(u24::one());
    }

    /// Whether nothing is waiting to be reported missing.
    pub fn is_empty(&self) -> (r: bool)
        ensures
            r == (self.numbers().len() == 0),
    {
        self.nacks.is_empty()
    }

    /// Removes and returns the run of consecutive numbers that starts with
    /// the smallest missing number.
    pub fn pop_range(&mut self) -> (r: Option<DatagramRange>)
        requires
            old(self).wf(),
        ensures
            final(self).wf(),
            final(self).expected_next() == old(self).expected_next(),
            old(self).numbers().len() == 0 ==> r is None && final(self).numbers() == old(self).numbers(),
            old(self).numbers().len() > 0 ==> (r matches Some(range) && range@ == (
                old(self).numbers()[0],
                (old(self).numbers()[0] + run_len(old(self).numbers()) - 1) as nat,
            ) && final(self).numbers() == old(self).numbers().skip(
                run_len(old(self).numbers()) as int,
            )),
    {
        self.nacks.pop_range()
    }
}

} // verus!
