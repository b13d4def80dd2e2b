//! Bookkeeping of sent datagrams until they are acknowledged, reported
//! lost or time out.

use vstd::prelude::*;

use crate::address::SocketAddress;
use crate::datagram_header::header_bytes;
use crate::datagram_range_list::DatagramRangeList;
use crate::error::Error;
use crate::events::SendReceipt;
use crate::internal_packet::{InternalPacket, InternalReliability};
use crate::number::{
    lemma_u24_bound, u24, wrapping_add_spec, wrapping_lt_spec, wrapping_sub_spec,
    DatagramSequenceNumber,
};
use crate::packet_datagram::{packet_writable, packets_bytes, PacketDatagram};

verus! {

broadcast use lemma_u24_bound;

/// A sent datagram: its sequence number, the time (in nanoseconds) after
/// which its packets are resent, and its packets.
pub type SentDatagram = (nat, u64, Seq<InternalPacket>);

/// The receipt numbers of the packets that carry one, in order.
pub open spec fn receipts_of(ps: Seq<InternalPacket>) -> Seq<u32>
    decreases ps.len(),
{
    if ps.len() == 0 {
        Seq::empty()
    } else {
        receipts_of(ps.drop_last()) + match ps.last().spec_receipt() {
            Some(r) => seq![r],
            None => Seq::empty(),
        }
    }
}

/// The reliable packets, in order.
pub open spec fn reliable_of(ps: Seq<InternalPacket>) -> Seq<InternalPacket>
    decreases ps.len(),
{
    if ps.len() == 0 {
        Seq::empty()
    } else {
        reliable_of(ps.drop_last()) + if ps.last().spec_reliability() is Reliable {
            seq![ps.last()]
        } else {
            Seq::empty()
        }
    }
}

/// The receipt numbers of the unreliable packets that carry one, in order.
pub open spec fn unreliable_receipts_of(ps: Seq<InternalPacket>) -> Seq<u32>
    decreases ps.len(),
{
    if ps.len() == 0 {
        Seq::empty()
    } else {
        unreliable_receipts_of(ps.drop_last()) + match (
            ps.last().spec_reliability(),
            ps.last().spec_receipt(),
        ) {
            (InternalReliability::Unreliable, Some(r)) => seq![r],
            _ => Seq::empty(),
        }
    }
}

/// A datagram times out at `time` when its resend time has come, or when
/// its number lies ahead of the next number to send (it belongs to an
/// earlier lap of the sequence numbers).
pub open spec fn is_timed_out(next: nat, time: u64, d: SentDatagram) -> bool {
    time >= d.1 || wrapping_lt_spec(next, d.0)
}

/// Splitting the sent datagrams at `time`: those kept, the reliable
/// packets of the timed-out ones (to resend) and the receipts of their
/// unreliable packets (lost).
pub open spec fn split_timed_out(ds: Seq<SentDatagram>, next: nat, time: u64) -> (
    Seq<SentDatagram>,
    Seq<InternalPacket>,
    Seq<u32>,
)
    decreases ds.len(),
{
    if ds.len() == 0 {
        (Seq::empty(), Seq::empty(), Seq::empty())
    } else {
        let (kept, resend, lost) = split_timed_out(ds.drop_last(), next, time);
        let d = ds.last();
        if is_timed_out(next, time, d) {
            (kept, resend + reliable_of(d.2), lost + unreliable_receipts_of(d.2))
        } else {
            (kept.push(d), resend, lost)
        }
    }
}

/// The sent datagrams without the one numbered `n`.
pub open spec fn without(ds: Seq<SentDatagram>, n: nat) -> Seq<SentDatagram>
    decreases ds.len(),
{
    if ds.len() == 0 {
        Seq::empty()
    } else {
        without(ds.drop_last(), n) + if ds.last().0 == n {
            Seq::empty()
        } else {
            seq![ds.last()]
        }
    }
}

/// The receipts of the packets of the datagram numbered `n`.
pub open spec fn receipts_of_number(ds: Seq<SentDatagram>, n: nat) -> Seq<u32>
    decreases ds.len(),
{
    if ds.len() == 0 {
        Seq::empty()
    } else {
        receipts_of_number(ds.drop_last(), n) + if ds.last().0 == n {
            receipts_of(ds.last().2)
        } else {
            Seq::empty()
        }
    }
}

/// Acknowledging the datagrams numbered `ns`, in order: the datagrams
/// left and the receipts of the packets of the acknowledged ones.
pub open spec fn acknowledged(ds: Seq<SentDatagram>, ns: Seq<nat>) -> (Seq<SentDatagram>, Seq<u32>)
    decreases ns.len(),
{
    if ns.len() == 0 {
        (ds, Seq::empty())
    } else {
        let (left, receipts) = acknowledged(ds, ns.drop_last());
        (without(left, ns.last()), receipts + receipts_of_number(left, ns.last()))
    }
}

/// Setting the resend time of the datagram numbered `n` to `time`.
pub open spec fn with_timeout(ds: Seq<SentDatagram>, n: nat, time: u64) -> Seq<SentDatagram> {
    ds.map_values(|d: SentDatagram| if d.0 == n {
        (d.0, time, d.2)
    } else {
        d
    })
}

/// Setting a resend time distributes over appending a datagram.
proof fn lemma_with_timeout_push(ds: Seq<SentDatagram>, d: SentDatagram, n: nat, time: u64)
    ensures
        with_timeout(ds.push(d), n, time) == with_timeout(ds, n, time).push(
            if d.0 == n {
                (d.0, time, d.2)
            } else {
                d
            },
        ),
{
    assert(with_timeout(ds.push(d), n, time) =~= with_timeout(ds, n, time).push(
        if d.0 == n {
            (d.0, time, d.2)
        } else {
            d
        },
    ));
}

/// Setting the resend time of the datagrams numbered `ns` to `time`.
pub open spec fn nacked(ds: Seq<SentDatagram>, ns: Seq<nat>, time: u64) -> Seq<SentDatagram>
    decreases ns.len(),
{
    if ns.len() == 0 {
        ds
    } else {
        with_timeout(nacked(ds, ns.drop_last(), time), ns.last(), time)
    }
}

/// The numbers a range covers, from its start forward to its end; none
/// when the end lies before the start.
pub open spec fn range_numbers(r: (nat, nat)) -> Seq<nat> {
    if wrapping_lt_spec(r.0, r.1) || r.0 == r.1 {
        Seq::new(wrapping_sub_spec(r.1, r.0) + 1, |i: int| wrapping_add_spec(r.0, i as nat))
    } else {
        Seq::empty()
    }
}

/// The numbers the ranges cover, range after range.
pub open spec fn ranges_numbers(rs: Seq<(nat, nat)>) -> Seq<nat>
    decreases rs.len(),
{
    if rs.len() == 0 {
        Seq::empty()
    } else {
        ranges_numbers(rs.drop_last()) + range_numbers(rs.last())
    }
}

/// The retransmission timeout in nanoseconds (one second).
pub open spec fn retransmission_timeout() -> u64 {
    1_000_000_000
}

struct DatagramItem {
    number: DatagramSequenceNumber,
    timeout_time: u64,
    packets: Vec<InternalPacket>,
}

impl DatagramItem {
    spec fn view(&self) -> SentDatagram {
        (self.number@, self.timeout_time, self.packets@)
    }
}

spec fn items_view(v: Seq<DatagramItem>) -> Seq<SentDatagram> {
    v.map_values(|d: DatagramItem| d.view())
}

/// The datagrams sent and not yet acknowledged, in the order they were
/// sent, and the number of the next datagram.
pub struct AcknowledgeHandler {
    datagrams: Vec<DatagramItem>,
    next_datagram_number: DatagramSequenceNumber,
    remote_addr: SocketAddress,
    remote_guid: u64,
}

impl AcknowledgeHandler {
    /// The datagrams in flight, in the order they were sent.
    pub closed spec fn sent(&self) -> Seq<SentDatagram> {
        items_view(self.datagrams@)
    }

    /// The number of the next datagram.
    pub closed spec fn next_number(&self) -> nat {
        self.next_datagram_number@
    }

    /// The remote peer's address.
    pub closed spec fn spec_remote_addr(&self) -> SocketAddress {
        self.remote_addr
    }

    /// The remote peer's GUID.
    pub closed spec fn spec_remote_guid(&self) -> u64 {
        self.remote_guid
    }

    /// A handler for the connection to `remote_addr` and `remote_guid`
    /// with no datagram in flight.
    pub fn new(remote_addr: SocketAddress, remote_guid: u64) -> (r: AcknowledgeHandler)
        ensures
            r.sent() == Seq::<SentDatagram>::empty(),
            r.next_number() == 0,
            r.spec_remote_addr() == remote_addr,
            r.spec_remote_guid() == remote_guid,
    {
        let r = AcknowledgeHandler {
            datagrams: Vec::new(),
            next_datagram_number: u24::zero(),
            remote_addr,
            remote_guid,
        };
        assert(r.sent() =~= Seq::<SentDatagram>::empty());
        r
    }

    /// The number of the next datagram.
    pub fn get_next_datagram_number(&self) -> (r: DatagramSequenceNumber)
        ensures
            r@ == self.next_number(),
    {
        self.next_datagram_number
    }

    /// Removes the datagrams that timed out at `time`. Returns the
    /// reliable packets they carried, to be resent, and the send receipts
    /// of the unreliable packets they carried, which are lost.
    pub fn get_packets_to_resend(&mut self, time: u64) -> (r: (Vec<InternalPacket>, Vec<SendReceipt>))
        ensures
            ({
                let (kept, resend, lost) = split_timed_out(old(self).sent(), old(self).next_number(), time);
                &&& final(self).sent() == kept
                &&& r.0@ == resend
                &&& r.1@.len() == lost.len()
                &&& forall|i: int| 0 <= i < lost.len() ==> {
                    &&& (#[trigger] r.1@[i]).spec_receipt() == lost[i]
                    &&& r.1@[i].spec_addr() == old(self).spec_remote_addr()
                    &&& r.1@[i].spec_guid() == old(self).spec_remote_guid()
                }
            }),
            final(self).next_number() == old(self).next_number(),
            final(self).spec_remote_addr() == old(self).spec_remote_addr(),
            final(self).spec_remote_guid() == old(self).spec_remote_guid(),
    {
        let ghost all = self.sent();
        let next = self.next_datagram_number;
        let mut pending: Vec<DatagramItem> = Vec::new();
        std::mem::swap(&mut pending, &mut self.datagrams);
        let n_all: usize = pending.len();
        assert(all.len() == n_all);
        let mut resend: Vec<InternalPacket> = Vec::new();
        let mut lost: Vec<SendReceipt> = Vec::new();
        let ghost mut lost_numbers: Seq<u32> = Seq::empty();
        let mut i: usize = 0;
        while pending.len() > 0
            invariant
                i <= all.len(),
                all.len() <= usize::MAX,
                pending@.len() + i == all.len(),
                items_view(pending@) == all.skip(i as int),
                next@ == old(self).next_number(),
                self.next_datagram_number == old(self).next_datagram_number,
                self.remote_addr == old(self).remote_addr,
                self.remote_guid == old(self).remote_guid,
                ({
                    let (kept, re, lo) = split_timed_out(all.take(i as int), next@, time);
                    &&& self.sent() == kept
                    &&& resend@ == re
                    &&& lost_numbers == lo
                }),
                lost@.len() == lost_numbers.len(),
                forall|k: int| 0 <= k < lost_numbers.len() ==> {
                    &&& (#[trigger] lost@[k]).spec_receipt() == lost_numbers[k]
                    &&& lost@[k].spec_addr() == self.remote_addr
                    &&& lost@[k].spec_guid() == self.remote_guid
                },
            decreases pending@.len(),
        {
            let ghost pb = pending@;
            let item = pending.remove(0);
            assert(item.view() == all[i as int]) by {
                assert(items_view(pb)[0] == all.skip(i as int)[0]);
            }
            assert(pending@ =~= pb.skip(1));
            assert forall|k: int| 0 <= k < pending@.len() implies #[trigger] items_view(pending@)[k]
                == all.skip(i as int + 1)[k] by {
                assert(items_view(pb)[k + 1] == all.skip(i as int)[k + 1]);
            }
            assert(items_view(pending@) =~= all.skip(i as int + 1));
            assert(all.take(i as int + 1).drop_last() =~= all.take(i as int));
            if self.is_timed_out_item(&item, time) {
                let DatagramItem { number: _, timeout_time: _, packets } = item;
                let ghost ps = packets@;
                let mut packets = packets;
                let n_ps: usize = packets.len();
                let mut j: usize = 0;
                let ghost resend0 = resend@;
                let ghost lost0 = lost_numbers;
                while packets.len() > 0
                    invariant
                        j <= ps.len(),
                        ps.len() <= usize::MAX,
                        packets@.len() + j == ps.len(),
                        packets@ == ps.skip(j as int),
                        resend@ == resend0 + reliable_of(ps.take(j as int)),
                        lost_numbers == lost0 + unreliable_receipts_of(ps.take(j as int)),
                        lost@.len() == lost_numbers.len(),
                        self.remote_addr == old(self).remote_addr,
                        self.remote_guid == old(self).remote_guid,
                        forall|k: int| 0 <= k < lost_numbers.len() ==> {
                            &&& (#[trigger] lost@[k]).spec_receipt() == lost_numbers[k]
                            &&& lost@[k].spec_addr() == self.remote_addr
                            &&& lost@[k].spec_guid() == self.remote_guid
                        },
                    decreases packets@.len(),
                {
                    let packet = packets.remove(0);
                    assert(packet == ps[j as int]) by {
                        assert(ps.skip(j as int)[0] == ps[j as int]);
                    }
                    assert(packets@ =~= ps.skip(j as int + 1));
                    assert(ps.take(j as int + 1).drop_last() =~= ps.take(j as int));
                    match packet.reliability() {
                        InternalReliability::Unreliable => {
                            match packet.receipt() {
                                Some(receipt) => {
                                    lost.push(SendReceipt::new(self.remote_addr, self.remote_guid, receipt));
                                    proof {
                                        lost_numbers = lost_numbers.push(receipt);
                                    }
                                    assert(lost_numbers =~= lost0 + unreliable_receipts_of(ps.take(j as int + 1)));
                                },
                                None => {
                                    assert(lost_numbers =~= lost0 + unreliable_receipts_of(ps.take(j as int + 1)));
                                },
                            }
                            assert(resend@ =~= resend0 + reliable_of(ps.take(j as int + 1)));
                        },
                        InternalReliability::Reliable(_) => {
                            resend.push(packet);
                            assert(resend@ =~= resend0 + reliable_of(ps.take(j as int + 1)));
                            assert(lost_numbers =~= lost0 + unreliable_receipts_of(ps.take(j as int + 1)));
                        },
                    }
                    j = j + 1;
                }
                assert(ps.take(j as int) =~= ps);
            } else {
                let ghost before = self.sent();
                self.datagrams.push(item);
                assert(self.sent() =~= before.push(all[i as int]));
            }
            i = i + 1;
        }
        assert(all.take(i as int) =~= all);
        (resend, lost)
    }

    /// Whether a datagram timed out at `time`.
    fn is_timed_out_item(&self, item: &DatagramItem, time: u64) -> (r: bool)
        ensures
            r == is_timed_out(self.next_number(), time, item.view()),
    {
        time >= item.timeout_time || self.next_datagram_number.wrapping_less_than(item.number)
    }

    /// Writes `datagram` into `buf` (replacing its contents) and records
    /// it under the next datagram number, with a resend time one
    /// retransmission timeout after `time`; the next number advances.
    /// Fails, recording nothing, when a packet of the datagram cannot be
    /// written.
    pub fn process_outgoing_datagram(&mut self, datagram: PacketDatagram, time: u64, buf: &mut Vec<
        u8,
    >) -> (r: Result<(), Error>)
        requires
            time <= u64::MAX - retransmission_timeout(),
        ensures
            (r is Ok) == (forall|i: int|
                0 <= i < datagram.packets().len() ==> #[trigger] packet_writable(datagram.packets()[i])),
            r is Ok ==> {
                &&& final(buf)@ == header_bytes(datagram.spec_header()) + packets_bytes(
                    datagram.packets(),
                )
                &&& final(self).sent() == without(old(self).sent(), old(self).next_number()).push(
                    (
                        old(self).next_number(),
                        (time + retransmission_timeout()) as u64,
                        datagram.packets(),
                    ),
                )
                &&& final(self).next_number() == wrapping_add_spec(old(self).next_number(), 1)
            },
            r is Err ==> final(self).sent() == old(self).sent() && final(self).next_number() == old(
                self,
            ).next_number(),
            final(self).spec_remote_addr() == old(self).spec_remote_addr(),
            final(self).spec_remote_guid() == old(self).spec_remote_guid(),
    {
        buf.clear();
        datagram.write(buf)?;
        let timeout_time = time + Self::get_retransmission_timeout();
        let number = self.next_datagram_number;
        self.remove_datagram(number);
        let ghost before = self.sent();
        self.datagrams.push(
            DatagramItem { number, timeout_time, packets: datagram.into_packets() },
        );
        assert(self.sent() =~= before.push((number@, timeout_time, datagram.packets())));
        self.next_datagram_number = self.next_datagram_number.wrapping_add(u24::one());
        Ok(())
    }

    /// Removes the datagram numbered `number` and returns the receipts of
    /// its packets.
    fn remove_datagram(&mut self, number: DatagramSequenceNumber) -> (r: Vec<u32>)
        ensures
            final(self).sent() == without(old(self).sent(), number@),
            r@ == receipts_of_number(old(self).sent(), number@),
            final(self).next_number() == old(self).next_number(),
            final(self).spec_remote_addr() == old(self).spec_remote_addr(),
            final(self).spec_remote_guid() == old(self).spec_remote_guid(),
    {
        let ghost all = self.sent();
        let mut pending: Vec<DatagramItem> = Vec::new();
        std::mem::swap(&mut pending, &mut self.datagrams);
        let n_all: usize = pending.len();
        assert(all.len() == n_all);
        let mut receipts: Vec<u32> = Vec::new();
        let mut i: usize = 0;
        while pending.len() > 0
            invariant
                i <= all.len(),
                all.len() <= usize::MAX,
                pending@.len() + i == all.len(),
                items_view(pending@) == all.skip(i as int),
                self.next_datagram_number == old(self).next_datagram_number,
                self.remote_addr == old(self).remote_addr,
                self.remote_guid == old(self).remote_guid,
                self.sent() == without(all.take(i as int), number@),
                receipts@ == receipts_of_number(all.take(i as int), number@),
            decreases pending@.len(),
        {
            let ghost pb = pending@;
            let item = pending.remove(0);
            assert(item.view() == all[i as int]) by {
                assert(items_view(pb)[0] == all.skip(i as int)[0]);
            }
            assert(pending@ =~= pb.skip(1));
            assert forall|k: int| 0 <= k < pending@.len() implies #[trigger] items_view(pending@)[k]
                == all.skip(i as int + 1)[k] by {
                assert(items_view(pb)[k + 1] == all.skip(i as int)[k + 1]);
            }
            assert(items_view(pending@) =~= all.skip(i as int + 1));
            assert(all.take(i as int + 1).drop_last() =~= all.take(i as int));
            if item.number.value() == number.value() {
                let ghost before = receipts@;
                let ps = item.packets;
                let mut j: usize = 0;
                while j < ps.len()
                    invariant
                        j <= ps@.len(),
                        receipts@ == before + receipts_of(ps@.take(j as int)),
                    decreases ps@.len() - j,
                {
                    assert(ps@.take(j as int + 1).drop_last() =~= ps@.take(j as int));
                    match ps[j].receipt() {
                        Some(receipt) => {
                            receipts.push(receipt);
                        },
                        None => {},
                    }
                    j = j + 1;
                    assert(receipts@ =~= before + receipts_of(ps@.take(j as int)));
                }
                assert(ps@.take(j as int) =~= ps@);
                assert(self.sent() =~= without(all.take(i as int + 1), number@));
            } else {
                let ghost before = self.sent();
                self.datagrams.push(item);
                assert(self.sent() =~= before.push(all[i as int]));
                assert(receipts@ =~= receipts_of_number(all.take(i as int + 1), number@));
            }
            i = i + 1;
        }
        assert(all.take(i as int) =~= all);
        receipts
    }

    /// Acknowledges the datagrams the ranges cover, range after range, and
    /// returns the send receipts of the packets they carried.
    pub fn process_incoming_ack(&mut self, datagram_range_list: DatagramRangeList) -> (r: Vec<SendReceipt>)
        ensures
            ({
                let (left, receipts) = acknowledged(old(self).sent(), ranges_numbers(datagram_range_list@));
                &&& final(self).sent() == left
                &&& r@.len() == receipts.len()
                &&& forall|i: int| 0 <= i < receipts.len() ==> {
                    &&& (#[trigger] r@[i]).spec_receipt() == receipts[i]
                    &&& r@[i].spec_addr() == old(self).spec_remote_addr()
                    &&& r@[i].spec_guid() == old(self).spec_remote_guid()
                }
            }),
            final(self).next_number() == old(self).next_number(),
            final(self).spec_remote_addr() == old(self).spec_remote_addr(),
            final(self).spec_remote_guid() == old(self).spec_remote_guid(),
    {
        let ghost all = self.sent();
        let ghost rs = datagram_range_list@;
        let ranges = datagram_range_list.into_vec();
        let mut events: Vec<SendReceipt> = Vec::new();
        let ghost mut receipts: Seq<u32> = Seq::empty();
        let mut k: usize = 0;
        while k < ranges.len()
            invariant
                k <= ranges@.len(),
                ranges@.map_values(|r: crate::datagram_range::DatagramRange| r@) == rs,
                acknowledged(all, ranges_numbers(rs.take(k as int))) == (self.sent(), receipts),
                self.next_number() == old(self).next_number(),
                self.spec_remote_addr() == old(self).spec_remote_addr(),
                self.spec_remote_guid() == old(self).spec_remote_guid(),
                events@.len() == receipts.len(),
                forall|i: int| 0 <= i < receipts.len() ==> {
                    &&& (#[trigger] events@[i]).spec_receipt() == receipts[i]
                    &&& events@[i].spec_addr() == self.remote_addr
                    &&& events@[i].spec_guid() == self.remote_guid
                },
            decreases ranges@.len() - k,
        {
            let range = ranges[k];
            assert(range@ == rs[k as int]);
            let start = range.start();
            let end = range.end();
            let count: u32 = if start.wrapping_less_than(end) || start.value() == end.value() {
                end.wrapping_sub(start).value() + 1
            } else {
                0
            };
            let ghost done = ranges_numbers(rs.take(k as int));
            let ghost nums = range_numbers(rs[k as int]);
            assert(nums.len() == count);
            let mut number = start;
            let mut i: u32 = 0;
            while i < count
                invariant
                    i <= count,
                    nums.len() == count,
                    nums == range_numbers(range@),
                    range@ == rs[k as int],
                    start@ == range@.0,
                    number@ == wrapping_add_spec(start@, i as nat),
                    acknowledged(all, done + nums.take(i as int)) == (self.sent(), receipts),
                    done == ranges_numbers(rs.take(k as int)),
                    self.next_number() == old(self).next_number(),
                    self.spec_remote_addr() == old(self).spec_remote_addr(),
                    self.spec_remote_guid() == old(self).spec_remote_guid(),
                    events@.len() == receipts.len(),
                    forall|j: int| 0 <= j < receipts.len() ==> {
                        &&& (#[trigger] events@[j]).spec_receipt() == receipts[j]
                        &&& events@[j].spec_addr() == self.remote_addr
                        &&& events@[j].spec_guid() == self.remote_guid
                    },
                decreases count - i,
            {
                assert(nums[i as int] == number@);
                assert((done + nums.take(i as int + 1)).drop_last() =~= done + nums.take(i as int));
                assert((done + nums.take(i as int + 1)).last() == number@);
                let acked = self.remove_datagram(number);
                let ghost r0 = receipts;
                let mut j: usize = 0;
                while j < acked.len()
                    invariant
                        j <= acked@.len(),
                        receipts == r0 + acked@.take(j as int),
                        events@.len() == receipts.len(),
                        self.spec_remote_addr() == old(self).spec_remote_addr(),
                        self.spec_remote_guid() == old(self).spec_remote_guid(),
                        forall|l: int| 0 <= l < receipts.len() ==> {
                            &&& (#[trigger] events@[l]).spec_receipt() == receipts[l]
                            &&& events@[l].spec_addr() == self.remote_addr
                            &&& events@[l].spec_guid() == self.remote_guid
                        },
                    decreases acked@.len() - j,
                {
                    events.push(SendReceipt::new(self.remote_addr, self.remote_guid, acked[j]));
                    proof {
                        receipts = receipts.push(acked@[j as int]);
                    }
                    j = j + 1;
                    assert(receipts =~= r0 + acked@.take(j as int));
                }
                assert(acked@.take(j as int) =~= acked@);
                number = number.wrapping_add(u24::one());
                i = i + 1;
                assert(number@ == wrapping_add_spec(start@, i as nat));
            }
            assert(nums.take(i as int) =~= nums);
            assert(rs.take(k as int + 1).drop_last() =~= rs.take(k as int));
            k = k + 1;
        }
        assert(rs.take(k as int) =~= rs);
        events
    }

    /// Sets the resend time of the datagram numbered `number` to `time`.
    fn set_timeout(&mut self, number: DatagramSequenceNumber, time: u64)
        ensures
            final(self).sent() == with_timeout(old(self).sent(), number@, time),
            final(self).next_number() == old(self).next_number(),
            final(self).spec_remote_addr() == old(self).spec_remote_addr(),
            final(self).spec_remote_guid() == old(self).spec_remote_guid(),
    {
        let ghost all = self.sent();
        let mut pending: Vec<DatagramItem> = Vec::new();
        std::mem::swap(&mut pending, &mut self.datagrams);
        let n_all: usize = pending.len();
        assert(all.len() == n_all);
        let mut i: usize = 0;
        while pending.len() > 0
            invariant
                i <= all.len(),
                all.len() <= usize::MAX,
                pending@.len() + i == all.len(),
                items_view(pending@) == all.skip(i as int),
                self.next_datagram_number == old(self).next_datagram_number,
                self.remote_addr == old(self).remote_addr,
                self.remote_guid == old(self).remote_guid,
                self.sent() == with_timeout(all.take(i as int), number@, time),
            decreases pending@.len(),
        {
            let ghost pb = pending@;
            let item = pending.remove(0);
            assert(item.view() == all[i as int]) by {
                assert(items_view(pb)[0] == all.skip(i as int)[0]);
            }
            assert(pending@ =~= pb.skip(1));
            assert forall|k: int| 0 <= k < pending@.len() implies #[trigger] items_view(pending@)[k]
                == all.skip(i as int + 1)[k] by {
                assert(items_view(pb)[k + 1] == all.skip(i as int)[k + 1]);
            }
            assert(items_view(pending@) =~= all.skip(i as int + 1));
            let ghost before = self.sent();
            let DatagramItem { number: n, timeout_time, packets } = item;
            let new_timeout = if n.value() == number.value() {
                time
            } else {
                timeout_time
            };
            self.datagrams.push(DatagramItem { number: n, timeout_time: new_timeout, packets });
            assert(all.take(i as int + 1) =~= all.take(i as int).push(all[i as int]));
            proof {
                lemma_with_timeout_push(all.take(i as int), all[i as int], number@, time);
            }
            assert(self.sent() =~= before.push(
                (all[i as int].0, new_timeout, all[i as int].2),
            ));
            i = i + 1;
        }
        assert(all.take(i as int) =~= all);
    }

    /// Sets the resend time of the datagrams the ranges cover to `time`,
    /// so that their packets are resent at the next update.
    pub fn process_incoming_nack(&mut self, time: u64, datagram_range_list: DatagramRangeList)
        ensures
            final(self).sent() == nacked(old(self).sent(), ranges_numbers(datagram_range_list@), time),
            final(self).next_number() == old(self).next_number(),
            final(self).spec_remote_addr() == old(self).spec_remote_addr(),
            final(self).spec_remote_guid() == old(self).spec_remote_guid(),
    {
        let ghost all = self.sent();
        let ghost rs = datagram_range_list@;
        let ranges = datagram_range_list.into_vec();
        let mut k: usize = 0;
        while k < ranges.len()
            invariant
                k <= ranges@.len(),
                ranges@.map_values(|r: crate::datagram_range::DatagramRange| r@) == rs,
                self.sent() == nacked(all, ranges_numbers(rs.take(k as int)), time),
                self.next_number() == old(self).next_number(),
                self.spec_remote_addr() == old(self).spec_remote_addr(),
                self.spec_remote_guid() == old(self).spec_remote_guid(),
            decreases ranges@.len() - k,
        {
            let range = ranges[k];
            assert(range@ == rs[k as int]);
            let start = range.start();
            let end = range.end();
            let count: u32 = if start.wrapping_less_than(end) || start.value() == end.value() {
                end.wrapping_sub(start).value() + 1
            } else {
                0
            };
            let ghost done = ranges_numbers(rs.take(k as int));
            let ghost nums = range_numbers(rs[k as int]);
            let mut number = start;
            let mut i: u32 = 0;
            while i < count
                invariant
                    i <= count,
                    nums.len() == count,
                    nums == range_numbers(range@),
                    range@ == rs[k as int],
                    start@ == range@.0,
                    number@ == wrapping_add_spec(start@, i as nat),
                    done == ranges_numbers(rs.take(k as int)),
                    self.sent() == nacked(all, done + nums.take(i as int), time),
                    self.next_number() == old(self).next_number(),
                    self.spec_remote_addr() == old(self).spec_remote_addr(),
                    self.spec_remote_guid() == old(self).spec_remote_guid(),
                decreases count - i,
            {
                assert(nums[i as int] == number@);
                assert((done + nums.take(i as int + 1)).drop_last() =~= done + nums.take(i as int));
                assert((done + nums.take(i as int + 1)).last() == number@);
                self.set_timeout(number, time);
                number = number.wrapping_add(u24::one());
                i = i + 1;
            }
            assert(nums.take(i as int) =~= nums);
            assert(rs.take(k as int + 1).drop_last() =~= rs.take(k as int));
            k = k + 1;
        }
        assert(rs.take(k as int) =~= rs);
    }

    /// The retransmission timeout in nanoseconds: the time after which a
    /// sent datagram's packets are resent if it was not acknowledged.
    pub fn get_retransmission_timeout() -> (r: u64)
        ensures
            r == retransmission_timeout(),
    {
        1_000_000_000
    }

    /// Whether the next datagram number is free.
    pub fn has_room_for_datagram(&self) -> (r: bool)
        ensures
            r == !(exists|i: int| 0 <= i < self.sent().len() && #[trigger] self.sent()[i].0 == self.next_number()),
    {
        let mut i: usize = 0;
        while i < self.datagrams.len()
            invariant
                i <= self.datagrams@.len(),
                forall|j: int| 0 <= j < i ==> #[trigger] self.sent()[j].0 != self.next_number(),
            decreases self.datagrams@.len() - i,
        {
            assert(self.sent()[i as int].0 == self.datagrams@[i as int].number@);
            if self.datagrams[i].number.value() == self.next_datagram_number.value() {
                return false;
            }
            i = i + 1;
        }
        true
    }

    /// The number of datagrams in flight.
    pub fn datagrams_in_flight(&self) -> (r: usize)
        ensures
            r == self.sent().len(),
    {
        self.datagrams.len()
    }
}

} // verus!
