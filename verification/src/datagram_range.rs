//! A run of consecutive datagram sequence numbers.

use vstd::prelude::*;

use crate::number::{lemma_u24_bound, u24, u24_modulus, DatagramSequenceNumber};

verus! {

/// The datagram sequence numbers from `start` to `end`, both included.
#[derive(Clone, Copy, Debug, PartialEq, Eq, Structural)]
pub struct DatagramRange {
    start: DatagramSequenceNumber,
    end: DatagramSequenceNumber,
}

impl View for DatagramRange {
    type V = (nat, nat);

    closed spec fn view(&self) -> (nat, nat) {
        (self.start@, self.end@)
    }
}

impl DatagramRange {
    /// The range from `start` to `end`.
    pub fn new(start: DatagramSequenceNumber, end: DatagramSequenceNumber) -> (r: DatagramRange)
        ensures
            r@ == (start@, end@),
    {
        DatagramRange { start, end }
    }

    /// Extends the range by `number` if `number` directly follows its end
    /// (without wrapping around). Returns whether it did.
    pub fn push(&mut self, number: DatagramSequenceNumber) -> (r: bool)
        ensures
            r == (old(self)@.1 + 1 < u24_modulus() && number@ == old(self)@.1 + 1),
            r ==> final(self)@ == (old(self)@.0, number@),
            !r ==> final(self)@ == old(self)@,
    {
        match self.next_number() {
            Some(next_number) => {
                if number.value() == next_number.value() {
                    self.end = next_number;
                    true
                } else {
                    false
                }
            },
            None => false,
        }
    }

    /// The first number of the range.
    pub fn start(&self) -> (r: DatagramSequenceNumber)
        ensures
            r@ == self@.0,
    {
        self.start
    }

    /// The last number of the range.
    pub fn end(&self) -> (r: DatagramSequenceNumber)
        ensures
            r@ == self@.1,
    {
        self.end
    }

    /// The number after the end, unless the end is the largest number.
    fn next_number(&self) -> (r: Option<DatagramSequenceNumber>)
        ensures
            match r {
                Some(n) => self@.1 + 1 < u24_modulus() && n@ == self@.1 + 1,
                None => self@.1 + 1 == u24_modulus(),
            },
    {
        proof {
            broadcast use lemma_u24_bound;
        }
        if self.end.value() != u24::max_value().value() {
            Some(self.end + u24::from(1u8))
        } else {
            None
        }
    }
}

} // verus!
