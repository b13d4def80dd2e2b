//! Duplicate detection for reliable packets.
//!
//! The receiver tracks a window of message numbers starting at the oldest
//! number not yet received; behind the window every number counts as
//! received, inside it each slot records whether that number is still
//! missing (a hole).

use std::collections::VecDeque;
use vstd::prelude::*;

use crate::number::{
    lemma_u24_bound, u24, u24_half_max, u24_modulus, wrapping_add_spec, wrapping_sub_spec,
    MessageNumber,
};

verus! {

/// The largest forward distance from the window start that is accepted.
pub open spec fn max_window_offset() -> nat {
    1000000
}

/// The number of received slots at the front of the window.
pub open spec fn leading_received(holes: Seq<bool>) -> nat
    decreases holes.len(),
{
    if holes.len() > 0 && !holes[0] {
        1 + leading_received(holes.drop_first())
    } else {
        0
    }
}

/// Drops the received slots at the front of the window and moves its start
/// past them.
pub open spec fn strip_received(holes: Seq<bool>, base: nat) -> (Seq<bool>, nat) {
    let k = leading_received(holes);
    (holes.skip(k as int), wrapping_add_spec(base, k))
}

/// The decision for message number `n` and the new window: returns whether
/// the packet is discarded, the new slots and the new window start.
pub open spec fn spec_should_discard(holes: Seq<bool>, base: nat, n: nat) -> (bool, Seq<bool>, nat) {
    let offset = wrapping_sub_spec(n, base);
    if offset == 0 {
        // The number the window was waiting for.
        let (h, b) = strip_received(
            if holes.len() > 0 {
                holes.drop_first()
            } else {
                holes
            },
            wrapping_add_spec(base, 1),
        );
        (false, h, b)
    } else if offset > u24_half_max() {
        // Behind the window: already received.
        (true, holes, base)
    } else if offset < holes.len() {
        if holes[offset as int] {
            // Fills a hole.
            let (h, b) = strip_received(holes.update(offset as int, false), base);
            (false, h, b)
        } else {
            (true, holes, base)
        }
    } else if offset > max_window_offset() {
        // Too far ahead.
        (true, holes, base)
    } else {
        // Ahead of every received number: open holes up to it.
        let h = holes + Seq::new((offset - holes.len()) as nat, |i: int| true) + seq![false];
        let (h2, b) = strip_received(h, base);
        (false, h2, b)
    }
}

/// Hands out message numbers for outgoing reliable packets and detects
/// duplicate incoming reliable packets.
pub struct ReliableMessageNumberHandler {
    holes: VecDeque<bool>,
    base_index: MessageNumber,
    next_outgoing_number: MessageNumber,
}

impl ReliableMessageNumberHandler {
    /// The window slots: true where the number is still missing.
    pub closed spec fn holes(&self) -> Seq<bool> {
        self.holes@
    }

    /// The start of the window, the oldest number not yet received.
    pub closed spec fn base(&self) -> nat {
        self.base_index@
    }

    /// The message number the next outgoing reliable packet gets.
    pub closed spec fn next_outgoing(&self) -> nat {
        self.next_outgoing_number@
    }

    /// The window never grows beyond the accepted distance, and its oldest
    /// slot is always a missing number.
    pub open spec fn wf(&self) -> bool {
        &&& self.holes().len() <= max_window_offset() + 1
        &&& self.holes().len() > 0 ==> self.holes()[0]
    }

    /// The window start is a 24-bit number.
    pub proof fn lemma_base_bound(&self)
        ensures
            self.base() < u24_modulus(),
    {
        lemma_u24_bound(self.base_index);
    }

    pub fn new() -> (r: ReliableMessageNumberHandler)
        ensures
            r.holes() == Seq::<bool>::empty(),
            r.base() == 0,
            r.next_outgoing() == 0,
            r.wf(),
    {
        ReliableMessageNumberHandler {
            holes: VecDeque::new(),
            base_index: u24::from_masked_u32(0),
            next_outgoing_number: u24::zero(),
        }
    }

    /// Returns the message number for the next outgoing reliable packet.
    /// The counter is left where it is, so every outgoing reliable packet
    /// gets the same number.
    pub fn get_and_increment_reliable_message_number(&mut self) -> (r: MessageNumber)
        ensures
            r@ == old(self).next_outgoing(),
            *final(self) == *old(self),
    {
        self.next_outgoing_number
    }

    /// Returns true if the message number has already been received
    /// and the packet is a duplicate that shall be discarded.
    pub fn should_discard_packet(&mut self, number: MessageNumber) -> (r: bool)
        requires
            old(self).wf(),
        ensures
            final(self).wf(),
            (r, final(self).holes(), final(self).base()) == spec_should_discard(
                old(self).holes(),
                old(self).base(),
                number@,
            ),
            r == (spec_received(old(self).holes(), old(self).base(), number@) || wrapping_sub_spec(
                number@,
                old(self).base(),
            ) > max_window_offset()),
            r ==> *final(self) == *old(self),
            !r ==> spec_received(final(self).holes(), final(self).base(), number@),
            final(self).next_outgoing() == old(self).next_outgoing(),
    {
        proof {
            self.lemma_base_bound();
            lemma_u24_bound(number);
            lemma_duplicate_window(self.holes(), self.base(), number@, number@);
        }
        proof {
            broadcast use lemma_u24_bound;
        }
        let offset = number.wrapping_sub(self.base_index).value() as usize;
        if offset == 0 {
            // Got the number we were expecting
            if self.holes.len() > 0 {
                self.holes.pop_front();
            }
            self.base_index = self.base_index.wrapping_add(u24::one());
            assert(self.holes@ =~= if old(self).holes@.len() > 0 {
                old(self).holes@.drop_first()
            } else {
                old(self).holes@
            });
        } else if offset > 0x7FFFFF {
            // Duplicate packet
            return true;
        } else if offset < self.holes.len() {
            // Got an out of order number, lower than a previously received number
            if self.holes[offset] {
                // There was a hole in the number sequence, fill in the hole
                self.holes.remove(offset);
                self.holes.insert(offset, false);
                assert(self.holes@ =~= old(self).holes@.update(offset as int, false));
            } else {
                // Duplicate packet
                return true;
            }
        } else {
            // Got an out of order number, higher than the previously received numbers
            if offset > 1000000 {
                // Too big offset, would allocate too much memory
                return true;
            }
            // Fill with holes up to the received number
            let ghost start = self.holes@;
            while offset > self.holes.len()
                invariant
                    self.holes@ == start + Seq::new((self.holes@.len() - start.len()) as nat, |i: int| true),
                    start.len() <= self.holes@.len() <= offset,
                    start == old(self).holes@,
                    self.base_index == old(self).base_index,
                    self.next_outgoing_number == old(self).next_outgoing_number,
                decreases offset - self.holes@.len(),
            {
                let ghost before = self.holes@;
                self.holes.push_back(true);
                assert(self.holes@ =~= start + Seq::new((self.holes@.len() - start.len()) as nat, |i: int| true));
            }
            // Add the received number
            self.holes.push_back(false);
            assert(self.holes@ =~= old(self).holes@ + Seq::new(
                (offset - old(self).holes@.len()) as nat,
                |i: int| true,
            ) + seq![false]);
        }
        proof {
            lemma_leading_received_bound(self.holes@);
        }
        self.pop_received();
        false
    }

    /// Pops all received numbers at the front of the window.
    fn pop_received(&mut self)
        ensures
            (final(self).holes(), final(self).base()) == strip_received(old(self).holes(), old(self).base()),
            final(self).next_outgoing() == old(self).next_outgoing(),
    {
        proof {
            lemma_leading_received_bound(self.holes@);
            broadcast use lemma_u24_bound;
        }
        let ghost h0 = self.holes@;
        let ghost b0 = self.base_index@;
        let ghost mut i: nat = 0;
        while self.holes.len() > 0 && !self.holes[0]
            invariant
                i <= leading_received(h0),
                leading_received(h0) <= h0.len(),
                self.holes@ == h0.skip(i as int),
                self.base_index@ == wrapping_add_spec(b0, i),
                leading_received(h0) == i + leading_received(self.holes@),
                self.next_outgoing_number == old(self).next_outgoing_number,
            decreases self.holes@.len(),
        {
            self.holes.pop_front();
            self.base_index = self.base_index.wrapping_add(u24::one());
            proof {
                assert(h0.skip(i as int).drop_first() =~= h0.skip(i + 1 as int));
                i = i + 1;
                broadcast use lemma_u24_bound;
                assert(wrapping_add_spec(wrapping_add_spec(b0, (i - 1) as nat), 1) == wrapping_add_spec(b0, i));
            }
        }
        proof {
            assert(leading_received(self.holes@) == 0);
        }
    }
}

/// Moving the reference point forward by `k` shortens the forward distance
/// to `n` by `k`, wrapping around.
proof fn lemma_distance_after_advance(n: nat, base: nat, k: nat)
    requires
        n < u24_modulus(),
        base < u24_modulus(),
        k < u24_modulus(),
    ensures
        wrapping_sub_spec(n, wrapping_add_spec(base, k)) == if wrapping_sub_spec(n, base) >= k {
            (wrapping_sub_spec(n, base) - k) as nat
        } else {
            (u24_modulus() - (k - wrapping_sub_spec(n, base))) as nat
        },
{
    let m = u24_modulus() as int;
    let off = wrapping_sub_spec(n, base) as int;
    let b2 = wrapping_add_spec(base, k) as int;
    assert(off == if n >= base { n - base as int } else { n + m - base });
    assert(b2 == if base + k < m { base + k as int } else { base + k - m });
}

/// Once a message number has been accepted, the same number arriving again
/// is discarded as a duplicate.
pub proof fn lemma_accepted_then_duplicate(holes: Seq<bool>, base: nat, n: nat)
    requires
        holes.len() <= max_window_offset() + 1,
        base < u24_modulus(),
        n < u24_modulus(),
        !spec_should_discard(holes, base, n).0,
    ensures
        ({
            let (_, h2, b2) = spec_should_discard(holes, base, n);
            spec_should_discard(h2, b2, n).0
        }),
{
    let m = u24_modulus();
    let off = wrapping_sub_spec(n, base);
    if off == 0 {
        let h1 = if holes.len() > 0 {
            holes.drop_first()
        } else {
            holes
        };
        let b1 = wrapping_add_spec(base, 1);
        lemma_leading_received_bound(h1);
        let k = leading_received(h1);
        lemma_distance_after_advance(n, b1, k);
        lemma_distance_after_advance(n, base, 1);
        assert(wrapping_sub_spec(n, b1) == m - 1);
    } else {
        let h1 = if off < holes.len() {
            holes.update(off as int, false)
        } else {
            holes + Seq::new((off - holes.len()) as nat, |i: int| true) + seq![false]
        };
        assert(!h1[off as int]);
        assert(h1.len() <= max_window_offset() + 1);
        lemma_leading_received_bound(h1);
        let k = leading_received(h1);
        lemma_distance_after_advance(n, base, k);
        let (_, h2, b2) = spec_should_discard(holes, base, n);
        assert(h2 == h1.skip(k as int));
        assert(b2 == wrapping_add_spec(base, k));
        if off >= k {
            assert(off != k);
            assert(h2[(off - k) as int] == h1[off as int]);
        }
    }
}

/// Whether message number `n` counts as received by the window `holes`
/// starting at `base`: it lies behind the window (more than half the
/// number circle back), or inside it in a slot that is not a hole.
pub open spec fn spec_received(holes: Seq<bool>, base: nat, n: nat) -> bool {
    let off = wrapping_sub_spec(n, base);
    off > u24_half_max() || (off < holes.len() && !holes[off as int])
}

/// A number `m` received inside the window stays received when the window
/// `h1` (starting at `b1`, where `m` has slot `off`) drops its leading
/// received slots.
proof fn lemma_received_survives_strip(h1: Seq<bool>, b1: nat, m: nat, off: nat)
    requires
        h1.len() <= max_window_offset() + 1,
        b1 < u24_modulus(),
        m < u24_modulus(),
        wrapping_sub_spec(m, b1) == off,
        off < h1.len(),
        !h1[off as int],
    ensures
        ({
            let (h2, b2) = strip_received(h1, b1);
            spec_received(h2, b2, m)
        }),
{
    lemma_leading_received_bound(h1);
    let k = leading_received(h1);
    lemma_distance_after_advance(m, b1, k);
    let (h2, b2) = strip_received(h1, b1);
    if off >= k {
        if off == k {
            assert(h1[k as int]);
        }
        assert(h2[(off - k) as int] == h1[off as int]);
    }
}

/// The duplicate window: a reliable message number is discarded exactly
/// when it was received already or lies more than `max_window_offset()`
/// ahead of the oldest missing number. A discarded number leaves the
/// window as it was; an accepted one counts as received afterwards, and
/// so does every number that was received inside the window before. The
/// window is taken as the handler keeps it (`wf`): its oldest slot is a
/// missing number, and it stays so.
pub proof fn lemma_duplicate_window(holes: Seq<bool>, base: nat, n: nat, m: nat)
    requires
        holes.len() <= max_window_offset() + 1,
        holes.len() > 0 ==> holes[0],
        base < u24_modulus(),
        n < u24_modulus(),
        m < u24_modulus(),
    ensures
        ({
            let (discard, h2, b2) = spec_should_discard(holes, base, n);
            &&& discard == (spec_received(holes, base, n) || wrapping_sub_spec(n, base)
                > max_window_offset())
            &&& discard ==> h2 == holes && b2 == base
            &&& !discard ==> spec_received(h2, b2, n)
            &&& !discard && wrapping_sub_spec(m, base) < holes.len() && spec_received(holes, base, m)
                ==> spec_received(h2, b2, m)
            &&& h2.len() > 0 ==> h2[0]
            &&& h2.len() <= max_window_offset() + 1
        }),
{
    let off = wrapping_sub_spec(n, base);
    let offm = wrapping_sub_spec(m, base);
    let (discard, h2, b2) = spec_should_discard(holes, base, n);
    if !discard {
        lemma_accepted_then_duplicate(holes, base, n);
    }
    if off == 0 {
        let h1 = if holes.len() > 0 {
            holes.drop_first()
        } else {
            holes
        };
        let b1 = wrapping_add_spec(base, 1);
        lemma_leading_received_bound(h1);
        lemma_distance_after_advance(n, base, 1);
        lemma_distance_after_advance(m, base, 1);
        lemma_distance_after_advance(n, b1, leading_received(h1));
        if offm < holes.len() && spec_received(holes, base, m) {
            assert(offm != 0);
            assert(h1[offm - 1] == holes[offm as int]);
            lemma_received_survives_strip(h1, b1, m, (offm - 1) as nat);
        }
        if h2.len() > 0 {
            assert(h2[0] == h1[leading_received(h1) as int]);
        }
    } else if off > u24_half_max() {
    } else if off < holes.len() {
        if holes[off as int] {
            let h1 = holes.update(off as int, false);
            lemma_leading_received_bound(h1);
            lemma_distance_after_advance(n, base, leading_received(h1));
            if offm < holes.len() && spec_received(holes, base, m) {
                assert(offm != off);
                lemma_received_survives_strip(h1, base, m, offm);
            }
            if h2.len() > 0 {
                assert(h2[0] == h1[leading_received(h1) as int]);
            }
        }
    } else if off > max_window_offset() {
    } else {
        let h1 = holes + Seq::new((off - holes.len()) as nat, |i: int| true) + seq![false];
        lemma_leading_received_bound(h1);
        lemma_distance_after_advance(n, base, leading_received(h1));
        if offm < holes.len() && spec_received(holes, base, m) {
            assert(h1[offm as int] == holes[offm as int]);
            lemma_received_survives_strip(h1, base, m, offm);
        }
        if h2.len() > 0 {
            assert(h2[0] == h1[leading_received(h1) as int]);
        }
    }
}

/// At most all slots are received.
pub proof fn lemma_leading_received_bound(holes: Seq<bool>)
    ensures
        leading_received(holes) <= holes.len(),
        leading_received(holes) < holes.len() ==> holes[leading_received(holes) as int],
        forall|j: int| 0 <= j < leading_received(holes) ==> !holes[j],
    decreases holes.len(),
{
    if holes.len() > 0 && !holes[0] {
        lemma_leading_received_bound(holes.drop_first());
        assert forall|j: int| 0 <= j < leading_received(holes) implies !holes[j] by {
            if j > 0 {
                assert(holes[j] == holes.drop_first()[j - 1]);
            }
        }
    }
}

} // verus!
