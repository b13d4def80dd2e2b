//! The list of datagram ranges carried by an ACK or NACK datagram.

use vstd::prelude::*;

use crate::codec::{u16_be_bytes, u24_le_bytes};
use crate::datagram_range::DatagramRange;
use crate::error::{Error, WriteError};
use crate::writer::{write_u16_be, write_u24, write_u8};

verus! {

/// The encoding of one range: a flag telling whether start and end are
/// equal, the start, and the end unless it equals the start.
pub open spec fn range_bytes(r: (nat, nat)) -> Seq<u8> {
    if r.0 == r.1 {
        seq![1u8] + u24_le_bytes(r.0 as u32)
    } else {
        seq![0u8] + u24_le_bytes(r.0 as u32) + u24_le_bytes(r.1 as u32)
    }
}

/// The encodings of the ranges, one after the other.
pub open spec fn ranges_bytes(rs: Seq<(nat, nat)>) -> Seq<u8>
    decreases rs.len(),
{
    if rs.len() == 0 {
        Seq::empty()
    } else {
        ranges_bytes(rs.drop_last()) + range_bytes(rs.last())
    }
}

/// The number of bytes a list with the ranges `rs` takes: the range
/// count followed by the ranges.
pub open spec fn list_size(rs: Seq<(nat, nat)>) -> nat {
    2 + ranges_bytes(rs).len()
}

/// The number of the ranges `rs` that a list of `size` bytes takes on
/// before a range of the longest kind (7 bytes) no longer fits into
/// `max` bytes.
pub open spec fn fill_count(rs: Seq<(nat, nat)>, size: nat, max: nat) -> nat
    decreases rs.len(),
{
    if rs.len() == 0 || size + 7 > max {
        0
    } else {
        1 + fill_count(rs.drop_first(), size + range_bytes(rs[0]).len(), max)
    }
}

/// The ranges split into lists that each fill a payload of `max` bytes,
/// in order; stops when not even one range fits.
pub open spec fn range_groups(rs: Seq<(nat, nat)>, max: nat) -> Seq<Seq<(nat, nat)>>
    decreases rs.len(),
    via range_groups_decreases
{
    let k = fill_count(rs, 2, max);
    if rs.len() == 0 || k == 0 {
        Seq::empty()
    } else {
        seq![rs.take(k as int)] + range_groups(rs.skip(k as int), max)
    }
}

#[via_fn]
proof fn range_groups_decreases(rs: Seq<(nat, nat)>, max: nat) {
    lemma_fill_count_bound(rs, 2, max);
}

/// The written list of the ranges `rs`: the big-endian range count and
/// the ranges.
pub open spec fn list_bytes(rs: Seq<(nat, nat)>) -> Seq<u8> {
    u16_be_bytes(rs.len() as u16) + ranges_bytes(rs)
}

/// A range takes four or seven bytes.
pub proof fn lemma_ranges_bytes_len(rs: Seq<(nat, nat)>)
    ensures
        4 * rs.len() <= ranges_bytes(rs).len() <= 7 * rs.len(),
    decreases rs.len(),
{
    if rs.len() > 0 {
        lemma_ranges_bytes_len(rs.drop_last());
    }
}

/// Filling takes no more ranges than there are.
pub proof fn lemma_fill_count_bound(rs: Seq<(nat, nat)>, size: nat, max: nat)
    ensures
        fill_count(rs, size, max) <= rs.len(),
        rs.len() > 0 && size + 7 <= max ==> fill_count(rs, size, max) >= 1,
    decreases rs.len(),
{
    if rs.len() > 0 && size + 7 <= max {
        lemma_fill_count_bound(rs.drop_first(), size + range_bytes(rs[0]).len(), max);
    }
}

/// Splitting ranges into lists loses none and reorders none when a range
/// of the longest kind fits into a list: the lists, one after the other,
/// are the ranges.
pub proof fn lemma_range_groups_flatten(rs: Seq<(nat, nat)>, max: nat)
    requires
        max >= 9,
    ensures
        range_groups(rs, max).flatten() == rs,
    decreases rs.len(),
{
    if rs.len() > 0 {
        lemma_fill_count_bound(rs, 2, max);
        let k = fill_count(rs, 2, max);
        lemma_range_groups_flatten(rs.skip(k as int), max);
        let g = range_groups(rs, max);
        assert(g == seq![rs.take(k as int)] + range_groups(rs.skip(k as int), max));
        assert(g.first() == rs.take(k as int));
        assert(g.drop_first() =~= range_groups(rs.skip(k as int), max));
        assert(rs.take(k as int) + rs.skip(k as int) =~= rs);
    } else {
        assert(range_groups(rs, max) =~= Seq::<Seq<(nat, nat)>>::empty());
    }
}

/// A list of datagram ranges and the number of bytes it takes when
/// written.
pub struct DatagramRangeList {
    ranges: Vec<DatagramRange>,
    bytes_used: usize,
}

impl View for DatagramRangeList {
    type V = Seq<(nat, nat)>;

    /// The ranges, in the order they were pushed.
    closed spec fn view(&self) -> Seq<(nat, nat)> {
        self.ranges@.map_values(|r: DatagramRange| r@)
    }
}

impl DatagramRangeList {
    /// The recorded size is the size of the written list.
    pub closed spec fn wf(&self) -> bool {
        self.bytes_used == list_size(self@)
    }

    /// The number of bytes the list takes when written.
    pub closed spec fn size(&self) -> nat {
        self.bytes_used as nat
    }

    /// The size is that of the written list.
    pub proof fn lemma_size(&self)
        requires
            self.wf(),
        ensures
            self.size() == list_size(self@),
    {
    }

    /// An empty list.
    pub fn new() -> (r: DatagramRangeList)
        ensures
            r.wf(),
            r@ == Seq::<(nat, nat)>::empty(),
            r.size() == 2,
    {
        let r = DatagramRangeList { ranges: Vec::new(), bytes_used: 2 };
        assert(r@ =~= Seq::<(nat, nat)>::empty());
        r
    }

    /// Whether a range of the longest kind (7 bytes) would no longer fit
    /// into a datagram payload of `max_datagram_payload` bytes.
    pub fn is_full(&self, max_datagram_payload: usize) -> (r: bool)
        ensures
            r == (self.size() + 7 > max_datagram_payload),
    {
        if max_datagram_payload < 7 {
            true
        } else {
            self.bytes_used > max_datagram_payload - 7
        }
    }

    /// The number of bytes the list takes when written.
    pub fn bytes_used(&self) -> (r: usize)
        ensures
            r == self.size(),
    {
        self.bytes_used
    }

    /// Appends a range.
    pub fn push(&mut self, range: DatagramRange)
        requires
            old(self).wf(),
            old(self).size() + 7 <= usize::MAX,
        ensures
            final(self).wf(),
            final(self)@ == old(self)@.push(range@),
            final(self).size() == old(self).size() + range_bytes(range@).len(),
    {
        let ghost rs = self@;
        self.bytes_used = if range.start().value() == range.end().value() {
            // "start equal to end" (u8) + "start" (u24)
            self.bytes_used + 1 + 3
        } else {
            // "start not equal to end" (u8) + "start" (u24) + "end" (u24)
            self.bytes_used + 1 + 3 + 3
        };
        self.ranges.push(range);
        assert(self@ =~= rs.push(range@));
        assert(self@.drop_last() =~= rs);
    }

    /// The ranges, in the order they were pushed.
    pub fn into_vec(self) -> (r: Vec<DatagramRange>)
        ensures
            r@.map_values(|d: DatagramRange| d@) == self@,
    {
        self.ranges
    }

    /// Writes the range count (big-endian `u16`) and the ranges. Fails
    /// with `TooManyRanges`, writing nothing, when there are more ranges
    /// than a `u16` can count.
    pub fn write(&self, buf: &mut Vec<u8>) -> (r: Result<(), Error>)
        ensures
            self@.len() <= 0xFFFF ==> r is Ok && final(buf)@ == old(buf)@ + u16_be_bytes(
                self@.len() as u16,
            ) + ranges_bytes(self@),
            self@.len() > 0xFFFF ==> r == Err::<(), Error>(Error::WriteError(WriteError::TooManyRanges))
                && final(buf)@ == old(buf)@,
    {
        if self.ranges.len() <= 0xFFFF {
            let number_of_ranges = self.ranges.len() as u16;
            write_u16_be(buf, number_of_ranges);
            let ghost start = buf@;
            let mut i: usize = 0;
            while i < self.ranges.len()
                invariant
                    i <= self.ranges@.len(),
                    self@.len() == self.ranges@.len(),
                    buf@ == start + ranges_bytes(self@.take(i as int)),
                decreases self.ranges@.len() - i,
            {
                let range = &self.ranges[i];
                assert(range@ == self@[i as int]);
                if range.start().value() == range.end().value() {
                    write_u8(buf, 0x01);  // Start equal to end = 1
                    write_u24(buf, range.start());
                } else {
                    write_u8(buf, 0x00);  // Start not equal to end = 0
                    write_u24(buf, range.start());
                    write_u24(buf, range.end());
                }
                assert(self@.take(i as int + 1).drop_last() =~= self@.take(i as int));
                i = i + 1;
                assert(buf@ =~= start + ranges_bytes(self@.take(i as int)));
            }
            assert(self@.take(i as int) =~= self@);
            Ok(())
        } else {
            Err(Error::WriteError(WriteError::TooManyRanges))
        }
    }
}

} // verus!
