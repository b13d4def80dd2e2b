//! The reliability layer of one connection: acknowledgements, duplicate
//! detection, reassembly and ordering of incoming packets, and queuing
//! and sending of outgoing packets.
//!
//! The layer does no I/O. Incoming datagrams are handed to it and it
//! returns the packets for the user; it returns the datagrams to send to
//! the remote peer.

use vstd::prelude::*;

use crate::acknowledge_handler::{
    retransmission_timeout, without, AcknowledgeHandler, SentDatagram,
};
use crate::acknowledgement::OutgoingAcknowledgements;
use crate::address::SocketAddress;
use crate::clock::{elapsed_ms, whole_millis};
use crate::config::Config;
use crate::constants::{
    MAX_ACK_DATAGRAM_HEADER_SIZE, MAX_NACK_DATAGRAM_HEADER_SIZE, NUMBER_OF_ORDERING_CHANNELS,
    TIME_BEFORE_SENDING_ACKS, UDP_HEADER_SIZE,
};
use crate::datagram_header::{header_bytes, spec_read_header, DatagramHeader};
use crate::datagram_heap::{lemma_run_len, runs, spans};
use crate::datagram_range_list::{
    fill_count, lemma_fill_count_bound, lemma_ranges_bytes_len, list_bytes, range_groups,
    DatagramRangeList,
};
use crate::number::DatagramSequenceNumber;
use crate::error::Error;
use crate::internal_packet::{
    lemma_read_packet_shrinks, spec_packet_bytes, spec_read_packet, InternalOrdering, InternalPacket,
    InternalReliability, PacketFields,
};
use crate::nack::OutgoingNacks;
use crate::number::{lemma_u24_bound, u24, wrapping_add_spec, OrderingIndex, SequencingIndex};
use crate::ordering_channel::{spec_drain, OrderingChannel};
use crate::ordering_system::OrderingSystem;
use crate::outgoing_packet_heap::{initial_weights, OutgoingPacketHeap};
use crate::packet::{Packet, PacketOrdering, Priority, Reliability};
use crate::packet_datagram::{max_payload_size, packet_writable, packets_bytes, packets_size, PacketDatagram};
use crate::reader::DataReader;
use crate::reliable_message_number_handler::{
    lemma_accepted_then_duplicate, spec_should_discard, ReliableMessageNumberHandler,
};
use crate::split_packet_handler::SplitPacketHandler;

verus! {

broadcast use lemma_u24_bound;

/// `out` are packets from `addr` and `guid` carrying `payloads`, in order.
pub open spec fn from_peer(out: Seq<Packet>, addr: SocketAddress, guid: u64, payloads: Seq<Seq<u8>>) -> bool {
    &&& out.len() == payloads.len()
    &&& forall|i: int|
        0 <= i < out.len() ==> {
            &&& (#[trigger] out[i]).spec_addr() == addr
            &&& out[i].spec_guid() == guid
            &&& out[i].spec_payload() == payloads[i]
        }
}

/// The contents of byte vectors.
pub open spec fn payload_views(v: Seq<Vec<u8>>) -> Seq<Seq<u8>> {
    v.map_values(|b: Vec<u8>| b@)
}

/// The payload, if any, as a sequence of at most one payload.
pub open spec fn opt_seq(r: Option<Seq<u8>>) -> Seq<Seq<u8>> {
    match r {
        Some(p) => seq![p],
        None => Seq::empty(),
    }
}

/// The effect of a packet with ordering `ord` and payload `payload` on
/// the ordering channels `pre`, giving the channels `post` and the
/// payloads released to the user. An ordered packet releases itself if it
/// is due and then every buffered packet that became due; a sequenced
/// packet releases at most itself; a packet on a channel beyond the
/// number of channels is dropped.
pub open spec fn ordered_delivery(
    pre: Seq<OrderingChannel>,
    ord: InternalOrdering,
    payload: Seq<u8>,
    post: Seq<OrderingChannel>,
    payloads: Seq<Seq<u8>>,
) -> bool {
    match ord {
        InternalOrdering::Unordered => post == pre && payloads == seq![payload],
        InternalOrdering::Ordered { ordering_index, ordering_channel_index } => {
            let ci = ordering_channel_index as int;
            if ordering_channel_index < NUMBER_OF_ORDERING_CHANNELS {
                exists|mid: OrderingChannel, r: Option<Seq<u8>>|
                    #[trigger] OrderingChannel::incoming(
                        pre[ci],
                        None,
                        ordering_index@,
                        payload,
                        mid,
                        r,
                    ) && {
                        let (ps, e, es, b) = spec_drain(
                            mid.expected_ordering(),
                            mid.expected_sequencing(),
                            mid.buffered(),
                        );
                        &&& post == pre.update(ci, post[ci])
                        &&& post[ci].expected_ordering() == e
                        &&& post[ci].expected_sequencing() == es
                        &&& post[ci].buffered() == b
                        &&& post[ci].offset() == mid.offset()
                        &&& payloads == opt_seq(r) + ps
                    }
            } else {
                post == pre && payloads.len() == 0
            }
        },
        InternalOrdering::Sequenced { sequencing_index, ordering_index, ordering_channel_index } => {
            let ci = ordering_channel_index as int;
            if ordering_channel_index < NUMBER_OF_ORDERING_CHANNELS {
                exists|r: Option<Seq<u8>>|
                    #[trigger] OrderingChannel::incoming(
                        pre[ci],
                        Some(sequencing_index@),
                        ordering_index@,
                        payload,
                        post[ci],
                        r,
                    ) && post == pre.update(ci, post[ci]) && payloads == opt_seq(r)
            } else {
                post == pre && payloads.len() == 0
            }
        },
    }
}

/// What reading a packet gives: its fields and the bytes after it.
pub type PacketRead = (
    InternalReliability,
    InternalOrdering,
    Option<crate::internal_packet::SplitPacketHeader>,
    Seq<u8>,
    Seq<u8>,
);

/// The packets in `s`, read one after the other until the bytes run out
/// or a packet cannot be read, and the error of that packet, if any.
pub open spec fn parse_packets(s: Seq<u8>) -> (Seq<PacketFields>, Option<Error>)
    decreases s.len(),
    via parse_packets_decreases
{
    if s.len() == 0 {
        (Seq::empty(), None)
    } else {
        match spec_read_packet(s) {
            Err(e) => (Seq::empty(), Some(e)),
            Ok((rel, ord, split, payload, rest)) => {
                let (fs, err) = parse_packets(rest);
                (seq![(rel, ord, split, payload)] + fs, err)
            },
        }
    }
}

#[via_fn]
proof fn parse_packets_decreases(s: Seq<u8>) {
    lemma_read_packet_shrinks(s);
}

/// Every datagram number waiting for an acknowledgement (or a negative
/// one) is sent, in order, and nothing else is: the ranges that the ACK
/// (or NACK) datagrams carry (see `send_acks` and `send_nacks`), one after
/// the other, span exactly the waiting numbers, whenever a range fits into
/// a datagram.
pub proof fn lemma_acks_cover(numbers: Seq<nat>, max: nat)
    requires
        max >= 9,
    ensures
        spans(range_groups(runs(numbers), max).flatten()) == numbers,
{
    crate::datagram_range_list::lemma_range_groups_flatten(runs(numbers), max);
    crate::datagram_heap::lemma_runs_cover(numbers);
}

/// The packets' fields, in order.
pub open spec fn packets_fields(ps: Seq<InternalPacket>) -> Seq<PacketFields> {
    ps.map_values(|p: InternalPacket| p.fields())
}

/// The encoding of packets starts with the encoding of the first.
proof fn lemma_packets_bytes_front(ps: Seq<InternalPacket>)
    requires
        ps.len() > 0,
    ensures
        packets_bytes(ps) == spec_packet_bytes(
            ps[0].spec_reliability(),
            ps[0].spec_ordering(),
            ps[0].spec_split_packet_header(),
            ps[0].spec_payload(),
        ) + packets_bytes(ps.skip(1)),
    decreases ps.len(),
{
    if ps.len() > 1 {
        lemma_packets_bytes_front(ps.drop_last());
        assert(ps.drop_last()[0] == ps[0]);
        assert(ps.drop_last().skip(1) =~= ps.skip(1).drop_last());
        assert(ps.skip(1).last() == ps.last());
    } else {
        assert(ps.drop_last() =~= Seq::<InternalPacket>::empty());
        assert(ps.skip(1) =~= Seq::<InternalPacket>::empty());
    }
}

/// What one side writes the other reads back: the encoding of a datagram
/// header followed by writable packets with non-empty payloads reads as
/// that header, and the bytes after it as exactly those packets, in order,
/// with no error.
#[verifier::spinoff_prover]
pub proof fn lemma_datagram_roundtrip(h: DatagramHeader, ps: Seq<InternalPacket>)
    requires
        forall|i: int|
            0 <= i < ps.len() ==> packet_writable(#[trigger] ps[i]) && ps[i].spec_payload().len() > 0,
    ensures
        spec_read_header(header_bytes(h) + packets_bytes(ps)) == Ok::<(DatagramHeader, Seq<u8>), Error>(
            (h, packets_bytes(ps)),
        ),
        parse_packets(packets_bytes(ps)) == (packets_fields(ps), None::<Error>),
{
    crate::datagram_header::lemma_header_roundtrip(h, packets_bytes(ps));
    lemma_packets_roundtrip(ps);
}

/// Reading the encoding of writable packets with non-empty payloads gives
/// exactly those packets, in order, with no error.
#[verifier::spinoff_prover]
proof fn lemma_packets_roundtrip(ps: Seq<InternalPacket>)
    requires
        forall|i: int|
            0 <= i < ps.len() ==> packet_writable(#[trigger] ps[i]) && ps[i].spec_payload().len() > 0,
    ensures
        parse_packets(packets_bytes(ps)) == (packets_fields(ps), None::<Error>),
    decreases ps.len(),
{
    if ps.len() == 0 {
        assert(packets_fields(ps) =~= Seq::<PacketFields>::empty());
    } else {
        let p = ps[0];
        let rest = ps.skip(1);
        assert(packet_writable(p) && p.spec_payload().len() > 0);
        assert forall|i: int| 0 <= i < rest.len() implies packet_writable(#[trigger] rest[i])
            && rest[i].spec_payload().len() > 0 by {
            assert(rest[i] == ps[i + 1]);
        }
        lemma_packets_roundtrip(rest);
        lemma_packets_bytes_front(ps);
        let first = spec_packet_bytes(
            p.spec_reliability(),
            p.spec_ordering(),
            p.spec_split_packet_header(),
            p.spec_payload(),
        );
        let tail = packets_bytes(rest);
        crate::internal_packet::lemma_packet_roundtrip(
            p.spec_reliability(),
            p.spec_ordering(),
            p.spec_split_packet_header(),
            p.spec_payload(),
            tail,
        );
        let s = packets_bytes(ps);
        assert(s == first + tail);
        assert(s.len() > 0);
        assert(packets_fields(ps) =~= seq![p.fields()] + packets_fields(rest));
    }
}

/// The sequences, one after the other.
pub open spec fn concat_all(outs: Seq<Seq<Packet>>) -> Seq<Packet>
    decreases outs.len(),
{
    if outs.len() == 0 {
        Seq::empty()
    } else {
        concat_all(outs.drop_last()) + outs.last()
    }
}

/// `states` and `outs` trace the delivery of the packets `fs`, read at
/// `time`: each packet takes the layer from one state to the next and
/// gives the packets for the user of its step.
pub open spec fn delivery_trace(
    fs: Seq<PacketFields>,
    time: u64,
    states: Seq<ReliabilityLayer>,
    outs: Seq<Seq<Packet>>,
) -> bool {
    &&& states.len() == outs.len() + 1
    &&& outs.len() == fs.len()
    &&& forall|i: int|
        0 <= i < outs.len() ==> #[trigger] ReliabilityLayer::delivered(
            states[i],
            fs[i],
            time,
            states[i + 1],
            outs[i],
        )
}

/// Processing the packets in `s`, read at `time`, one after the other,
/// from layer `pre`: the layer `post` afterwards, the packets for the
/// user `out`, and whether reading succeeded. Processing stops at the
/// first packet that cannot be read, with its error.
pub open spec fn received(
    pre: ReliabilityLayer,
    s: Seq<u8>,
    time: u64,
    post: ReliabilityLayer,
    out: Seq<Packet>,
    res: Result<(), Error>,
) -> bool {
    &&& res == match parse_packets(s).1 {
        Some(e) => Err::<(), Error>(e),
        None => Ok(()),
    }
    &&& exists|states: Seq<ReliabilityLayer>, outs: Seq<Seq<Packet>>|
        #[trigger] delivery_trace(parse_packets(s).0, time, states, outs) && states[0] == pre
            && states.last() == post && out == concat_all(outs)
}

/// A complete trace of the packets of `s` shows what processing them
/// does.
proof fn lemma_received(
    pre: ReliabilityLayer,
    s: Seq<u8>,
    time: u64,
    post: ReliabilityLayer,
    out: Seq<Packet>,
    fs: Seq<PacketFields>,
    err: Option<Error>,
    states: Seq<ReliabilityLayer>,
    outs: Seq<Seq<Packet>>,
)
    requires
        parse_packets(s) == (fs, err),
        states.len() == outs.len() + 1,
        outs.len() == fs.len(),
        forall|i: int|
            0 <= i < outs.len() ==> #[trigger] ReliabilityLayer::delivered(
                states[i],
                fs[i],
                time,
                states[i + 1],
                outs[i],
            ),
        states[0] == pre,
        states.last() == post,
        out == concat_all(outs),
    ensures
        received(
            pre,
            s,
            time,
            post,
            out,
            match err {
                Some(e) => Err::<(), Error>(e),
                None => Ok(()),
            },
        ),
{
    assert(parse_packets(s).0 == fs);
    assert(parse_packets(s).1 == err);
    assert(delivery_trace(parse_packets(s).0, time, states, outs));
    assert(exists|st: Seq<ReliabilityLayer>, ou: Seq<Seq<Packet>>|
        #[trigger] delivery_trace(parse_packets(s).0, time, st, ou) && st[0] == pre
            && st.last() == post && out == concat_all(ou));
}

/// The payload room of an ACK datagram for an MTU: the MTU less the
/// largest ACK header (flags and data arrival rate).
pub open spec fn ack_payload_size(mtu: u16) -> nat {
    if mtu >= MAX_ACK_DATAGRAM_HEADER_SIZE {
        (mtu - MAX_ACK_DATAGRAM_HEADER_SIZE) as nat
    } else {
        0
    }
}

/// The payload room of a NACK datagram for an MTU: the MTU less the
/// NACK header (flags).
pub open spec fn nack_payload_size(mtu: u16) -> nat {
    if mtu >= MAX_NACK_DATAGRAM_HEADER_SIZE {
        (mtu - MAX_NACK_DATAGRAM_HEADER_SIZE) as nat
    } else {
        0
    }
}

/// One datagram per group of ranges: the header and the range list.
pub open spec fn ranges_datagrams(h: DatagramHeader, groups: Seq<Seq<(nat, nat)>>) -> Seq<Seq<u8>> {
    groups.map_values(|g: Seq<(nat, nat)>| header_bytes(h) + list_bytes(g))
}

/// The number of packets at the front of `ps` that fit, one after the
/// other, into a datagram that already carries `used` bytes of packets
/// and may carry `max` bytes of packets.
pub open spec fn fitting_count(ps: Seq<InternalPacket>, used: nat, max: int) -> nat
    decreases ps.len(),
{
    if ps.len() == 0 || used + ps[0].spec_size() > max {
        0
    } else {
        1 + fitting_count(ps.drop_first(), used + ps[0].spec_size(), max)
    }
}

/// No more packets fit than there are, and the first one fits if it is
/// small enough.
pub proof fn lemma_fitting_count_bound(ps: Seq<InternalPacket>, used: nat, max: int)
    ensures
        fitting_count(ps, used, max) <= ps.len(),
        ps.len() > 0 && used + ps[0].spec_size() <= max ==> fitting_count(ps, used, max) >= 1,
    decreases ps.len(),
{
    if ps.len() > 0 && used + ps[0].spec_size() <= max {
        lemma_fitting_count_bound(ps.drop_first(), used + ps[0].spec_size(), max);
    }
}

/// The packets with the message number `next` given to every reliable
/// packet that has none yet, and the message number the next packet gets,
/// which stays `next` (the counter does not advance).
pub open spec fn number_packets(ps: Seq<InternalPacket>, next: nat) -> (Seq<InternalPacket>, nat)
    decreases ps.len(),
{
    if ps.len() == 0 {
        (Seq::empty(), next)
    } else {
        let (front, n) = number_packets(ps.drop_last(), next);
        let p = ps.last();
        if p.spec_reliability() == InternalReliability::Reliable(None) {
            (
                front.push(p.with_reliability(InternalReliability::Reliable(Some(u24::spec_new(n))))),
                n,
            )
        } else {
            (front.push(p), n)
        }
    }
}

/// The header of the datagram of packets numbered `number`.
pub open spec fn packet_datagram_header(number: nat) -> DatagramHeader {
    DatagramHeader::Packet {
        is_packet_pair: false,
        is_continuous_send: false,
        needs_data_arrival_rate: false,
        datagram_number: u24::spec_new(number),
    }
}

/// Sending the queued packets `queue`, lightest first, at `time`, in
/// datagrams that carry at most `max` bytes of packets: `msg` is the next
/// message number, `sent` the datagrams in flight and `next` the next
/// datagram number. Each datagram takes the packets at the front of the
/// queue that fit; their reliable packets get message numbers; the
/// datagram is recorded in flight under the next number. Sending stops
/// when the queue is empty, when the first packet does not fit into an
/// empty datagram, or at a datagram with a packet that cannot be written,
/// whose packets are then dropped.
///
/// Gives the number of packets taken from the queue, the next message
/// number, the datagrams in flight, the next datagram number and the
/// datagrams sent.
pub open spec fn flush(
    queue: Seq<InternalPacket>,
    msg: nat,
    sent: Seq<SentDatagram>,
    next: nat,
    time: u64,
    max: int,
) -> (nat, nat, Seq<SentDatagram>, nat, Seq<Seq<u8>>)
    decreases queue.len(),
    via flush_decreases
{
    let k = fitting_count(queue, 0, max);
    if queue.len() == 0 || k == 0 {
        (0, msg, sent, next, Seq::empty())
    } else {
        let (group, msg1) = number_packets(queue.take(k as int), msg);
        if forall|i: int| 0 <= i < group.len() ==> #[trigger] packet_writable(group[i]) {
            let bytes = header_bytes(packet_datagram_header(next)) + packets_bytes(group);
            let rest = flush(
                queue.skip(k as int),
                msg1,
                without(sent, next).push((next, (time + retransmission_timeout()) as u64, group)),
                wrapping_add_spec(next, 1),
                time,
                max,
            );
            (k + rest.0, rest.1, rest.2, rest.3, seq![bytes] + rest.4)
        } else {
            (k, msg1, sent, next, Seq::empty())
        }
    }
}

#[via_fn]
proof fn flush_decreases(
    queue: Seq<InternalPacket>,
    msg: nat,
    sent: Seq<SentDatagram>,
    next: nat,
    time: u64,
    max: int,
) {
    lemma_fitting_count_bound(queue, 0, max);
}

/// Numbering keeps the number of packets.
pub proof fn lemma_number_packets_len(ps: Seq<InternalPacket>, next: nat)
    ensures
        number_packets(ps, next).0.len() == ps.len(),
    decreases ps.len(),
{
    if ps.len() > 0 {
        lemma_number_packets_len(ps.drop_last(), next);
    }
}

/// The reliability of an outgoing packet as it is queued.
pub open spec fn queued_reliability(reliability: Reliability) -> InternalReliability {
    match reliability {
        Reliability::Unreliable => InternalReliability::Unreliable,
        Reliability::Reliable => InternalReliability::Reliable(None),
    }
}

/// The ordering channel an outgoing packet goes on: the one asked for, or
/// channel 0 if there is no such channel.
pub open spec fn outgoing_channel(channel: u8) -> u8 {
    if channel < NUMBER_OF_ORDERING_CHANNELS {
        channel
    } else {
        0
    }
}

/// The ordering of an outgoing packet and the next ordering and
/// sequencing indices of the channels afterwards. An ordered packet takes
/// its channel's next ordering index and restarts its sequencing; a
/// sequenced packet takes its channel's next sequencing index and the
/// current ordering index.
pub open spec fn outgoing_ordering(ordering: PacketOrdering, ords: Seq<u24>, seqs: Seq<u24>) -> (
    InternalOrdering,
    Seq<u24>,
    Seq<u24>,
) {
    match ordering {
        PacketOrdering::Unordered => (InternalOrdering::Unordered, ords, seqs),
        PacketOrdering::Ordered(c) => {
            let ci = outgoing_channel(c);
            (
                InternalOrdering::Ordered { ordering_index: ords[ci as int], ordering_channel_index: ci },
                ords.update(ci as int, u24::spec_new(wrapping_add_spec(ords[ci as int]@, 1))),
                seqs.update(ci as int, u24::spec_new(0)),
            )
        },
        PacketOrdering::Sequenced(c) => {
            let ci = outgoing_channel(c);
            (
                InternalOrdering::Sequenced {
                    sequencing_index: seqs[ci as int],
                    ordering_index: ords[ci as int],
                    ordering_channel_index: ci,
                },
                ords,
                seqs.update(ci as int, u24::spec_new(wrapping_add_spec(seqs[ci as int]@, 1))),
            )
        },
    }
}

/// The largest payload of a packet sent without splitting for an MTU:
/// the datagram's packet room less the largest packet header (23 bytes),
/// or 0 when the MTU leaves no such room.
pub open spec fn max_packet_payload_size(mtu: u16) -> nat {
    if max_payload_size(mtu) >= 23 {
        (max_payload_size(mtu) - 23) as nat
    } else {
        0
    }
}

/// No packet header is longer than 23 bytes, and a reliable sequenced
/// part of a split packet has a header of exactly 23 bytes: 23 is the
/// largest packet header.
pub proof fn lemma_largest_packet_header(
    reliability: InternalReliability,
    ordering: InternalOrdering,
    split: Option<crate::internal_packet::SplitPacketHeader>,
    number: crate::number::MessageNumber,
    sequencing_index: crate::number::SequencingIndex,
    ordering_index: crate::number::OrderingIndex,
    ordering_channel_index: u8,
    header: crate::internal_packet::SplitPacketHeader,
)
    ensures
        InternalPacket::spec_header_size(reliability, ordering, split) <= 23,
        InternalPacket::spec_header_size(
            InternalReliability::Reliable(Some(number)),
            InternalOrdering::Sequenced { sequencing_index, ordering_index, ordering_channel_index },
            Some(header),
        ) == 23,
{
}

/// Sending a packet unsplit: on a layer whose queue has room, every
/// payload that fits into a datagram together with the largest packet
/// header (the MTU less the IP and UDP headers, the 4-byte datagram
/// header and 23 bytes) is queued, and, where the MTU leaves room for that
/// header, every longer payload is dropped. So the largest payload sent
/// unsplit at MTU `m` is exactly `m - UDP_HEADER_SIZE - 4 - 23`.
pub proof fn lemma_unsplit_payload_limit(
    pre: ReliabilityLayer,
    time: u64,
    priority: Priority,
    reliability: Reliability,
    ordering: PacketOrdering,
    receipt: Option<u32>,
    payload: Seq<u8>,
    post: ReliabilityLayer,
)
    requires
        pre.outgoing_packet_heap().has_weight_room(),
        ReliabilityLayer::packet_sent(pre, time, priority, reliability, ordering, receipt, payload, post),
    ensures
        payload.len() + 23 + 4 + UDP_HEADER_SIZE <= pre.spec_mtu() ==> ReliabilityLayer::packet_queued(
            pre,
            time,
            priority,
            reliability,
            ordering,
            receipt,
            payload,
            post,
        ),
        pre.spec_mtu() >= 23 + 4 + UDP_HEADER_SIZE && payload.len() + 23 + 4 + UDP_HEADER_SIZE
            > pre.spec_mtu() ==> post == pre,
{
}

/// The state of the reliability layer of one connection.
pub struct ReliabilityLayer {
    acknowledge_handler: AcknowledgeHandler,
    outgoing_acks: OutgoingAcknowledgements,
    outgoing_nacks: OutgoingNacks,
    outgoing_packet_heap: OutgoingPacketHeap,
    reliable_message_number_handler: ReliableMessageNumberHandler,
    ordering_system: OrderingSystem,
    split_packet_handler: SplitPacketHandler,
    remote_addr: SocketAddress,
    remote_guid: u64,
    mtu: u16,
    time_last_datagram_arrived: u64,
    next_ordering_index: Vec<OrderingIndex>,
    next_sequencing_index: Vec<SequencingIndex>,
}

impl ReliabilityLayer {
    /// The datagrams in flight.
    pub closed spec fn acknowledge_handler(&self) -> AcknowledgeHandler {
        self.acknowledge_handler
    }

    /// The acknowledgements to send.
    pub closed spec fn outgoing_acks(&self) -> OutgoingAcknowledgements {
        self.outgoing_acks
    }

    /// The negative acknowledgements to send.
    pub closed spec fn outgoing_nacks(&self) -> OutgoingNacks {
        self.outgoing_nacks
    }

    /// The packets waiting to be sent.
    pub closed spec fn outgoing_packet_heap(&self) -> OutgoingPacketHeap {
        self.outgoing_packet_heap
    }

    /// The message numbers received and sent.
    pub closed spec fn message_numbers(&self) -> ReliableMessageNumberHandler {
        self.reliable_message_number_handler
    }

    /// The ordering channels.
    pub closed spec fn channels(&self) -> Seq<OrderingChannel> {
        self.ordering_system.channels()
    }

    /// The split packets in reassembly.
    pub closed spec fn splits(&self) -> Map<u16, crate::split_packet_handler::SplitPacketChannel> {
        self.split_packet_handler.channels()
    }

    /// The remote peer's address.
    pub closed spec fn spec_remote_addr(&self) -> SocketAddress {
        self.remote_addr
    }

    /// The remote peer's GUID.
    pub closed spec fn spec_remote_guid(&self) -> u64 {
        self.remote_guid
    }

    /// The MTU of the connection.
    pub closed spec fn spec_mtu(&self) -> u16 {
        self.mtu
    }

    /// The time (in nanoseconds) the last datagram arrived.
    pub closed spec fn time_last_datagram(&self) -> u64 {
        self.time_last_datagram_arrived
    }

    /// The next ordering index of each ordering channel.
    pub closed spec fn next_ordering_indices(&self) -> Seq<OrderingIndex> {
        self.next_ordering_index@
    }

    /// The next sequencing index of each ordering channel.
    pub closed spec fn next_sequencing_indices(&self) -> Seq<SequencingIndex> {
        self.next_sequencing_index@
    }

    /// Every part is well formed and there is an ordering and a
    /// sequencing index per ordering channel.
    pub closed spec fn wf(&self) -> bool {
        &&& self.outgoing_acks.wf()
        &&& self.outgoing_nacks.wf()
        &&& self.outgoing_packet_heap.wf()
        &&& self.reliable_message_number_handler.wf()
        &&& self.ordering_system.wf()
        &&& self.split_packet_handler.wf()
        &&& self.next_ordering_index@.len() == NUMBER_OF_ORDERING_CHANNELS
        &&& self.next_sequencing_index@.len() == NUMBER_OF_ORDERING_CHANNELS
        &&& forall|i: int|
            0 <= i < self.outgoing_packet_heap.packets().len()
                ==> #[trigger] self.outgoing_packet_heap.packets()[i].spec_size() <= u16::MAX
    }

    /// Everything but the waiting acknowledgements is the same in `post`
    /// as in `pre`.
    pub open spec fn same_except_acks(pre: ReliabilityLayer, post: ReliabilityLayer) -> bool {
        &&& post.acknowledge_handler() == pre.acknowledge_handler()
        &&& post.outgoing_nacks() == pre.outgoing_nacks()
        &&& post.outgoing_packet_heap() == pre.outgoing_packet_heap()
        &&& post.message_numbers() == pre.message_numbers()
        &&& post.channels() == pre.channels()
        &&& post.splits() == pre.splits()
        &&& post.spec_remote_addr() == pre.spec_remote_addr()
        &&& post.spec_remote_guid() == pre.spec_remote_guid()
        &&& post.spec_mtu() == pre.spec_mtu()
        &&& post.time_last_datagram() == pre.time_last_datagram()
        &&& post.next_ordering_indices() == pre.next_ordering_indices()
        &&& post.next_sequencing_indices() == pre.next_sequencing_indices()
    }

    /// Everything but the waiting negative acknowledgements is the same in
    /// `post` as in `pre`.
    pub open spec fn same_except_nacks(pre: ReliabilityLayer, post: ReliabilityLayer) -> bool {
        &&& post.acknowledge_handler() == pre.acknowledge_handler()
        &&& post.outgoing_acks() == pre.outgoing_acks()
        &&& post.outgoing_packet_heap() == pre.outgoing_packet_heap()
        &&& post.message_numbers() == pre.message_numbers()
        &&& post.channels() == pre.channels()
        &&& post.splits() == pre.splits()
        &&& post.spec_remote_addr() == pre.spec_remote_addr()
        &&& post.spec_remote_guid() == pre.spec_remote_guid()
        &&& post.spec_mtu() == pre.spec_mtu()
        &&& post.time_last_datagram() == pre.time_last_datagram()
        &&& post.next_ordering_indices() == pre.next_ordering_indices()
        &&& post.next_sequencing_indices() == pre.next_sequencing_indices()
    }

    /// Everything but the incoming state (message numbers, split packets
    /// and ordering channels) is the same in `post` as in `pre`.
    pub open spec fn same_outgoing_state(pre: ReliabilityLayer, post: ReliabilityLayer) -> bool {
        &&& post.acknowledge_handler() == pre.acknowledge_handler()
        &&& post.outgoing_acks() == pre.outgoing_acks()
        &&& post.outgoing_nacks() == pre.outgoing_nacks()
        &&& post.outgoing_packet_heap() == pre.outgoing_packet_heap()
        &&& post.spec_remote_addr() == pre.spec_remote_addr()
        &&& post.spec_remote_guid() == pre.spec_remote_guid()
        &&& post.spec_mtu() == pre.spec_mtu()
        &&& post.time_last_datagram() == pre.time_last_datagram()
        &&& post.next_ordering_indices() == pre.next_ordering_indices()
        &&& post.next_sequencing_indices() == pre.next_sequencing_indices()
        &&& post.message_numbers().next_outgoing() == pre.message_numbers().next_outgoing()
    }

    /// The effect of an incoming packet with fields `f`, read at `time`,
    /// on `pre`, giving `post` and the packets for the user `out`. A
    /// reliable packet whose message number was already received is
    /// dropped; a part of a split packet is stored until the packet is
    /// complete; the (reassembled) packet then goes through its ordering
    /// channel.
    pub open spec fn delivered(
        pre: ReliabilityLayer,
        f: PacketFields,
        time: u64,
        post: ReliabilityLayer,
        out: Seq<Packet>,
    ) -> bool {
        let numbers = pre.message_numbers();
        let (discard, holes, base) = match f.0 {
            InternalReliability::Reliable(Some(n)) => spec_should_discard(
                numbers.holes(),
                numbers.base(),
                n@,
            ),
            _ => (false, numbers.holes(), numbers.base()),
        };
        &&& ReliabilityLayer::same_outgoing_state(pre, post)
        &&& post.message_numbers().holes() == holes
        &&& post.message_numbers().base() == base
        &&& if discard {
            &&& out.len() == 0
            &&& post.splits() == pre.splits()
            &&& post.channels() == pre.channels()
        } else if f.2 is Some {
            exists|q: Option<InternalPacket>, payloads: Seq<Seq<u8>>|
                #[trigger] SplitPacketHandler::handled(pre.splits(), f, time, post.splits(), q)
                    && #[trigger] from_peer(out, pre.spec_remote_addr(), pre.spec_remote_guid(), payloads)
                    && match q {
                    Some(q) => ordered_delivery(
                        pre.channels(),
                        q.spec_ordering(),
                        q.spec_payload(),
                        post.channels(),
                        payloads,
                    ),
                    None => post.channels() == pre.channels() && payloads.len() == 0,
                }
        } else {
            &&& post.splits() == pre.splits()
            &&& exists|payloads: Seq<Seq<u8>>|
                #[trigger] ordered_delivery(pre.channels(), f.1, f.3, post.channels(), payloads)
                    && from_peer(out, pre.spec_remote_addr(), pre.spec_remote_guid(), payloads)
        }
    }

    /// Handles one incoming packet and returns the packets it releases to
    /// the user.
    fn deliver_packet(&mut self, packet: InternalPacket, time: u64) -> (r: Vec<Packet>)
        requires
            old(self).wf(),
        ensures
            final(self).wf(),
            ReliabilityLayer::delivered(*old(self), packet.fields(), time, *final(self), r@),
    {
        let ghost pre = *self;
        let ghost f = packet.fields();
        match packet.reliability() {
            InternalReliability::Reliable(Some(reliable_message_number)) => {
                if self.reliable_message_number_handler.should_discard_packet(reliable_message_number) {
                    return Vec::new();
                }
            },
            _ => {},
        }
        let ghost after_numbers = *self;
        let ghost mut q: Option<InternalPacket> = None;
        let packet = if packet.split_packet_header().is_some() {
            let reassembled = self.split_packet_handler.handle_split_packet(time, packet);
            proof {
                q = reassembled;
            }
            match reassembled {
                Some(p) => p,
                None => {
                    assert(ReliabilityLayer::delivered(pre, f, time, *self, Seq::<Packet>::empty())) by {
                        assert(SplitPacketHandler::handled(pre.splits(), f, time, self.splits(), q));
                        assert(from_peer(Seq::<Packet>::empty(), pre.spec_remote_addr(), pre.spec_remote_guid(), Seq::<Seq<u8>>::empty()));
                    }
                    return Vec::new();
                },
            }
        } else {
            packet
        };
        let ghost ord = packet.spec_ordering();
        let ghost payload = packet.spec_payload();
        let ghost before = *self;
        assert(before.channels() == pre.channels());
        assert(f.2 is Some ==> q == Some(packet) && SplitPacketHandler::handled(pre.splits(), f, time, before.splits(), q));
        assert(f.2 is None ==> before.splits() == pre.splits() && ord == f.1 && payload == f.3);
        let mut packets: Vec<Packet> = Vec::new();
        let ghost mut payloads: Seq<Seq<u8>> = Seq::empty();
        match packet.ordering() {
            InternalOrdering::Unordered => {
                packets.push(Packet::new(self.remote_addr, self.remote_guid, packet.into_payload()));
                proof {
                    payloads = seq![payload];
                }
                assert(ordered_delivery(before.channels(), ord, payload, self.channels(), payloads));
            },
            InternalOrdering::Ordered { ordering_index, ordering_channel_index } => {
                let addr = self.remote_addr;
                let guid = self.remote_guid;
                let ghost ci = ordering_channel_index as int;
                match self.ordering_system.get_channel(ordering_channel_index) {
                    Some(channel) => {
                        let first = channel.process_incoming(None, ordering_index, packet.into_payload());
                        let ghost mid = *channel;
                        let ghost r_first = match &first {
                            Some(p) => Some(p@),
                            None => None,
                        };
                        assert(OrderingChannel::incoming(before.channels()[ci], None, ordering_index@, payload, mid, r_first));
                        let ready = channel.iter_mut();
                        let ghost drained = spec_drain(mid.expected_ordering(), mid.expected_sequencing(), mid.buffered());
                        assert(channel.expected_ordering() == drained.1 && channel.expected_sequencing() == drained.2 && channel.buffered() == drained.3 && channel.offset() == mid.offset());
                        assert(payload_views(ready@) == drained.0);
                        match first {
                            Some(p) => {
                                packets.push(Packet::new(addr, guid, p));
                            },
                            None => {},
                        }
                        let ghost p0 = opt_seq(r_first);
                        assert(from_peer(packets@, addr, guid, p0 + drained.0.take(0)));
                        let mut ready = ready;
                        let ghost all_ready = payload_views(ready@);
                        let mut k: usize = 0;
                        let n_ready: usize = ready.len();
                        while ready.len() > 0
                            invariant
                                k <= all_ready.len(),
                                all_ready.len() == n_ready,
                                ready@.len() + k == all_ready.len(),
                                payload_views(ready@) == all_ready.skip(k as int),
                                from_peer(packets@, addr, guid, p0 + all_ready.take(k as int)),
                            decreases ready@.len(),
                        {
                            let ghost rb = ready@;
                            let p = ready.remove(0);
                            assert(p@ == all_ready[k as int]) by {
                                assert(payload_views(rb)[0] == all_ready.skip(k as int)[0]);
                            }
                            assert forall|j: int| 0 <= j < ready@.len() implies #[trigger] payload_views(
                                ready@,
                            )[j] == all_ready.skip(k as int + 1)[j] by {
                                assert(payload_views(rb)[j + 1] == all_ready.skip(k as int)[j + 1]);
                            }
                            assert(payload_views(ready@) =~= all_ready.skip(k as int + 1));
                            packets.push(Packet::new(addr, guid, p));
                            assert(p0 + all_ready.take(k as int + 1) =~= (p0 + all_ready.take(k as int)).push(p@));
                            k = k + 1;
                        }
                        assert(all_ready.take(k as int) =~= all_ready);
                        proof {
                            payloads = p0 + all_ready;
                        }
                        assert(self.channels() == before.channels().update(ci, self.channels()[ci]));
                        assert(ordered_delivery(before.channels(), ord, payload, self.channels(), payloads));
                    },
                    None => {
                        assert(ordered_delivery(before.channels(), ord, payload, self.channels(), payloads));
                    },
                }
            },
            InternalOrdering::Sequenced { sequencing_index, ordering_index, ordering_channel_index } => {
                let addr = self.remote_addr;
                let guid = self.remote_guid;
                let ghost ci = ordering_channel_index as int;
                match self.ordering_system.get_channel(ordering_channel_index) {
                    Some(channel) => {
                        let first = channel.process_incoming(
                            Some(sequencing_index),
                            ordering_index,
                            packet.into_payload(),
                        );
                        let ghost r_first = match &first {
                            Some(p) => Some(p@),
                            None => None,
                        };
                        let ghost post_channel = *channel;
                        match first {
                            Some(p) => {
                                packets.push(Packet::new(addr, guid, p));
                            },
                            None => {},
                        }
                        proof {
                            payloads = opt_seq(r_first);
                        }
                        assert(OrderingChannel::incoming(before.channels()[ci], Some(sequencing_index@), ordering_index@, payload, self.channels()[ci], r_first));
                        assert(ordered_delivery(before.channels(), ord, payload, self.channels(), payloads));
                    },
                    None => {
                        assert(ordered_delivery(before.channels(), ord, payload, self.channels(), payloads));
                    },
                }
            },
        }
        assert(from_peer(packets@, pre.spec_remote_addr(), pre.spec_remote_guid(), payloads));
        assert(self.splits() == before.splits());
        assert(ReliabilityLayer::same_outgoing_state(pre, *self));
        proof {
            if f.2 is Some {
                assert(SplitPacketHandler::handled(pre.splits(), f, time, self.splits(), q));
                assert(from_peer(packets@, pre.spec_remote_addr(), pre.spec_remote_guid(), payloads));
            } else {
                assert(ordered_delivery(pre.channels(), f.1, f.3, self.channels(), payloads));
            }
        }
        packets
    }
    /// `post` is `pre` with a datagram numbered `number`, arrived at
    /// `time`, recorded for acknowledgement and for detecting missing
    /// datagrams.
    pub open spec fn datagram_recorded(
        pre: ReliabilityLayer,
        number: nat,
        time: u64,
        post: ReliabilityLayer,
    ) -> bool {
        &&& OutgoingNacks::handled(pre.outgoing_nacks(), number, post.outgoing_nacks())
        &&& OutgoingAcknowledgements::inserted(pre.outgoing_acks(), number, time, post.outgoing_acks())
        &&& post.time_last_datagram() == time
        &&& post.acknowledge_handler() == pre.acknowledge_handler()
        &&& post.outgoing_packet_heap() == pre.outgoing_packet_heap()
        &&& post.message_numbers() == pre.message_numbers()
        &&& post.channels() == pre.channels()
        &&& post.splits() == pre.splits()
        &&& post.spec_remote_addr() == pre.spec_remote_addr()
        &&& post.spec_remote_guid() == pre.spec_remote_guid()
        &&& post.spec_mtu() == pre.spec_mtu()
        &&& post.next_ordering_indices() == pre.next_ordering_indices()
        &&& post.next_sequencing_indices() == pre.next_sequencing_indices()
    }

    /// The effect of processing the datagram `payload`, arrived at `time`,
    /// on `pre`, giving `post` and the packets for the user `r`. A datagram
    /// of packets is recorded for acknowledgement and its packets are
    /// processed; the packets for the user come back unless a packet could
    /// not be read. Acknowledgements, negative acknowledgements and
    /// datagrams whose header cannot be read give `None` and change only
    /// the arrival time.
    pub open spec fn datagram_processed(
        pre: ReliabilityLayer,
        payload: Seq<u8>,
        time: u64,
        post: ReliabilityLayer,
        r: Option<Seq<Packet>>,
    ) -> bool {
        &&& post.time_last_datagram() == time
        &&& match spec_read_header(payload) {
            Ok((DatagramHeader::Packet { datagram_number, .. }, rest)) => exists|mid: ReliabilityLayer|
                #[trigger] ReliabilityLayer::datagram_recorded(pre, datagram_number@, time, mid)
                    && match r {
                    Some(v) => received(mid, rest, time, post, v, Ok(())),
                    None => exists|out: Seq<Packet>, e: Error|
                        received(mid, rest, time, post, out, Err::<(), Error>(e)),
                },
            _ => {
                &&& r is None
                &&& post.outgoing_acks() == pre.outgoing_acks()
                &&& post.outgoing_nacks() == pre.outgoing_nacks()
                &&& post.acknowledge_handler() == pre.acknowledge_handler()
                &&& post.outgoing_packet_heap() == pre.outgoing_packet_heap()
                &&& post.message_numbers() == pre.message_numbers()
                &&& post.channels() == pre.channels()
                &&& post.splits() == pre.splits()
                &&& post.spec_remote_addr() == pre.spec_remote_addr()
                &&& post.spec_remote_guid() == pre.spec_remote_guid()
                &&& post.spec_mtu() == pre.spec_mtu()
                &&& post.next_ordering_indices() == pre.next_ordering_indices()
                &&& post.next_sequencing_indices() == pre.next_sequencing_indices()
            },
        }
    }

    /// Processes an incoming datagram that arrived at `time`, as
    /// `datagram_processed` says, and returns the packets for the user.
    pub fn process_incoming_datagram(&mut self, payload: &[u8], time: u64) -> (r: Option<Vec<Packet>>)
        requires
            old(self).wf(),
        ensures
            final(self).wf(),
            ReliabilityLayer::datagram_processed(
                *old(self),
                payload@,
                time,
                *final(self),
                match r {
                    Some(v) => Some(v@),
                    None => None,
                },
            ),
    {
        self.time_last_datagram_arrived = time;
        let mut reader = DataReader::new(payload);
        match DatagramHeader::read(&mut reader) {
            Ok(DatagramHeader::Packet { datagram_number, .. }) => {
                self.outgoing_nacks.handle_datagram(datagram_number);
                self.outgoing_acks.insert(datagram_number, time);
                let ghost mid = *self;
                assert(ReliabilityLayer::datagram_recorded(*old(self), datagram_number@, time, mid));
                match self.process_incoming_packets(&mut reader, time) {
                    Ok(packets) => Some(packets),
                    Err(e) => None,
                }
            },
            _ => None,
        }
    }

    /// Processes the packets that follow the datagram header, read at
    /// `time`, and returns the packets for the user.
    fn process_incoming_packets(&mut self, reader: &mut DataReader, time: u64) -> (r: Result<
        Vec<Packet>,
        Error,
    >)
        requires
            old(self).wf(),
        ensures
            final(self).wf(),
            ReliabilityLayer::same_outgoing_state(*old(self), *final(self)),
            match r {
                Ok(v) => received(*old(self), old(reader)@, time, *final(self), v@, Ok(())),
                Err(e) => exists|out: Seq<Packet>|
                    received(*old(self), old(reader)@, time, *final(self), out, Err::<(), Error>(e)),
            },
    {
        let ghost pre = *self;
        let ghost start = reader@;
        let ghost fs = parse_packets(start).0;
        let ghost err = parse_packets(start).1;
        let ghost mut states: Seq<ReliabilityLayer> = seq![pre];
        let ghost mut outs: Seq<Seq<Packet>> = Seq::empty();
        let mut packets: Vec<Packet> = Vec::new();
        assert(fs.skip(0) =~= fs);
        while reader.has_more()
            invariant
                self.wf(),
                ReliabilityLayer::same_outgoing_state(pre, *self),
                pre == *old(self),
                start == old(reader)@,
                states.len() == outs.len() + 1,
                outs.len() <= fs.len(),
                states[0] == pre,
                states.last() == *self,
                forall|i: int|
                    0 <= i < outs.len() ==> #[trigger] ReliabilityLayer::delivered(
                        states[i],
                        fs[i],
                        time,
                        states[i + 1],
                        outs[i],
                    ),
                packets@ == concat_all(outs),
                parse_packets(reader@) == (fs.skip(outs.len() as int), err),
                parse_packets(start) == (fs, err),
            decreases reader@.len(),
        {
            let ghost bytes = reader@;
            let packet = match InternalPacket::read(time, reader) {
                Ok(packet) => packet,
                Err(e) => {
                    assert(parse_packets(bytes) == (Seq::<PacketFields>::empty(), Some(e)));
                    assert(fs.skip(outs.len() as int).len() == 0);
                    proof {
                        lemma_received(pre, start, time, *self, packets@, fs, Some(e), states, outs);
                    }
                    return Err(e);
                },
            };
            let ghost f = packet.fields();
            assert(parse_packets(bytes).0 == seq![f] + parse_packets(reader@).0);
            assert(parse_packets(bytes).1 == parse_packets(reader@).1);
            assert(fs.skip(outs.len() as int)[0] == f);
            assert(fs[outs.len() as int] == f);
            assert(fs.skip(outs.len() as int) == seq![f] + parse_packets(reader@).0);
            assert forall|j: int| 0 <= j < parse_packets(reader@).0.len() implies fs.skip(
                outs.len() as int + 1,
            )[j] == parse_packets(reader@).0[j] by {
                assert(fs.skip(outs.len() as int)[j + 1] == parse_packets(reader@).0[j]);
            }
            assert(parse_packets(reader@).0 =~= fs.skip(outs.len() as int + 1));
            let ghost before_states = states;
            let ghost before_outs = outs;
            let mut out = self.deliver_packet(packet, time);
            proof {
                states = states.push(*self);
                outs = outs.push(out@);
                assert(outs.drop_last() =~= before_outs);
                assert forall|i: int| 0 <= i < outs.len() implies #[trigger] ReliabilityLayer::delivered(
                    states[i],
                    fs[i],
                    time,
                    states[i + 1],
                    outs[i],
                ) by {
                    if i < before_outs.len() {
                        assert(states[i] == before_states[i] && states[i + 1] == before_states[i + 1]);
                        assert(outs[i] == before_outs[i]);
                    }
                }
            }
            packets.append(&mut out);
        }
        assert(fs.skip(outs.len() as int).len() == 0);
        proof {
            lemma_received(pre, start, time, *self, packets@, fs, None, states, outs);
        }
        Ok(packets)
    }


    /// Sends all waiting acknowledgements: their runs of consecutive
    /// numbers, in ACK datagrams that each carry as many ranges as fit.
    /// Nothing is sent when the MTU leaves no room for a range.
    fn send_acks(&mut self, out: &mut Vec<Vec<u8>>)
        requires
            old(self).wf(),
        ensures
            final(self).wf(),
            ({
                let max = ack_payload_size(old(self).spec_mtu());
                if max >= 9 {
                    &&& final(self).outgoing_acks().numbers().len() == 0
                    &&& payload_views(final(out)@) == payload_views(old(out)@) + ranges_datagrams(
                        DatagramHeader::Ack { data_arrival_rate: None },
                        range_groups(runs(old(self).outgoing_acks().numbers()), max),
                    )
                } else {
                    &&& final(self).outgoing_acks() == old(self).outgoing_acks()
                    &&& final(out)@ == old(out)@
                }
            }),
            final(self).outgoing_nacks() == old(self).outgoing_nacks(),
            ReliabilityLayer::same_except_acks(*old(self), *final(self)),
    {
        let max_payload: usize = if self.mtu as usize >= MAX_ACK_DATAGRAM_HEADER_SIZE {
            self.mtu as usize - MAX_ACK_DATAGRAM_HEADER_SIZE
        } else {
            0
        };
        if max_payload < 9 {
            return;
        }
        let ghost rs0 = runs(self.outgoing_acks.numbers());
        let ghost out0 = payload_views(out@);
        let ghost mut done: Seq<Seq<(nat, nat)>> = Seq::empty();
        while !self.outgoing_acks.is_empty()
            invariant
                max_payload == ack_payload_size(self.mtu),
                max_payload >= 9,
                self.wf(),
                ReliabilityLayer::same_except_acks(*old(self), *self),
                self.outgoing_nacks == old(self).outgoing_nacks,
                rs0 == runs(old(self).outgoing_acks().numbers()),
                range_groups(rs0, max_payload as nat) == done + range_groups(
                    runs(self.outgoing_acks.numbers()),
                    max_payload as nat,
                ),
                payload_views(out@) == out0 + ranges_datagrams(
                    DatagramHeader::Ack { data_arrival_rate: None },
                    done,
                ),
                out0 == payload_views(old(out)@),
            decreases self.outgoing_acks.numbers().len(),
        {
            let ghost rs = runs(self.outgoing_acks.numbers());
            let ghost len0 = self.outgoing_acks.numbers().len();
            proof {
                lemma_fill_count_bound(rs, 2, max_payload as nat);
            }
            let mut list = DatagramRangeList::new();
            let ghost mut j: nat = 0;
            assert(rs.skip(0) =~= rs);
            assert(list@ =~= rs.take(0));
            while !list.is_full(max_payload)
                invariant
                    max_payload >= 9,
                    self.outgoing_acks.numbers().len() <= len0,
                    list.wf(),
                    list.size() <= max_payload,
                    list@ == rs.take(j as int),
                    j <= rs.len(),
                    runs(self.outgoing_acks.numbers()) == rs.skip(j as int),
                    j + fill_count(rs.skip(j as int), list.size(), max_payload as nat) == fill_count(
                        rs,
                        2,
                        max_payload as nat,
                    ),
                    j > 0 ==> self.outgoing_acks.numbers().len() < len0,
                    self.wf(),
                    ReliabilityLayer::same_except_acks(*old(self), *self),
                    self.outgoing_nacks == old(self).outgoing_nacks,
                ensures
                    fill_count(rs.skip(j as int), list.size(), max_payload as nat) == 0,
                    list.wf(),
                    list.size() <= max_payload,
                    list@ == rs.take(j as int),
                    j <= rs.len(),
                    runs(self.outgoing_acks.numbers()) == rs.skip(j as int),
                    j + fill_count(rs.skip(j as int), list.size(), max_payload as nat) == fill_count(
                        rs,
                        2,
                        max_payload as nat,
                    ),
                    j > 0 ==> self.outgoing_acks.numbers().len() < len0,
                    self.wf(),
                    ReliabilityLayer::same_except_acks(*old(self), *self),
                    self.outgoing_nacks == old(self).outgoing_nacks,
                decreases self.outgoing_acks.numbers().len(),
            {
                proof {
                    lemma_run_len(self.outgoing_acks.numbers());
                    list.lemma_size();
                }
                let ghost before = self.outgoing_acks.numbers();
                match self.outgoing_acks.pop_range() {
                    Some(range) => {
                        assert(runs(before) == seq![range@] + runs(self.outgoing_acks.numbers()));
                        assert(rs.skip(j as int)[0] == range@);
                        assert(rs.skip(j as int).drop_first() =~= rs.skip(j as int + 1));
                        list.push(range);
                        proof {
                            assert(list@ =~= rs.take(j as int + 1));
                            j = j + 1;
                        }
                    },
                    None => {
                        assert(rs.skip(j as int) =~= Seq::<(nat, nat)>::empty());
                        break;
                    },
                }
            }
            proof {
                list.lemma_size();
                lemma_ranges_bytes_len(list@);
                lemma_fill_count_bound(rs, 2, max_payload as nat);
            }
            assert(j == fill_count(rs, 2, max_payload as nat));
            assert(j >= 1);
            assert(range_groups(rs, max_payload as nat) == seq![rs.take(j as int)] + range_groups(rs.skip(j as int), max_payload as nat));
            let mut buf: Vec<u8> = Vec::new();
            let header = DatagramHeader::Ack { data_arrival_rate: None };
            let _ = header.write(&mut buf);
            assert(buf@ =~= header_bytes(header));
            assert(list@.len() <= 0xFFFF);
            let _ = list.write(&mut buf);
            assert(buf@ =~= header_bytes(header) + list_bytes(rs.take(j as int)));
            let ghost before_out = out@;
            out.push(buf);
            assert(payload_views(out@) =~= payload_views(before_out).push(header_bytes(header) + list_bytes(rs.take(j as int))));
            proof {
                assert(ranges_datagrams(header, done.push(rs.take(j as int))) =~= ranges_datagrams(header, done).push(header_bytes(header) + list_bytes(rs.take(j as int))));
                assert(done.push(rs.take(j as int)) + range_groups(rs.skip(j as int), max_payload as nat) =~= done + range_groups(rs, max_payload as nat));
                done = done.push(rs.take(j as int));
            }
        }
        assert(runs(self.outgoing_acks.numbers()) =~= Seq::<(nat, nat)>::empty());
    }

    /// Sends all waiting negative acknowledgements: their runs of
    /// consecutive numbers, in NACK datagrams that each carry as many
    /// ranges as fit.
    /// Nothing is sent when the MTU leaves no room for a range.
    fn send_nacks(&mut self, out: &mut Vec<Vec<u8>>)
        requires
            old(self).wf(),
        ensures
            final(self).wf(),
            ({
                let max = nack_payload_size(old(self).spec_mtu());
                if max >= 9 {
                    &&& final(self).outgoing_nacks().numbers().len() == 0
                    &&& payload_views(final(out)@) == payload_views(old(out)@) + ranges_datagrams(
                        DatagramHeader::Nack,
                        range_groups(runs(old(self).outgoing_nacks().numbers()), max),
                    )
                } else {
                    &&& final(self).outgoing_nacks() == old(self).outgoing_nacks()
                    &&& final(out)@ == old(out)@
                }
            }),
            final(self).outgoing_acks() == old(self).outgoing_acks(),
            ReliabilityLayer::same_except_nacks(*old(self), *final(self)),
    {
        let max_payload: usize = if self.mtu as usize >= MAX_NACK_DATAGRAM_HEADER_SIZE {
            self.mtu as usize - MAX_NACK_DATAGRAM_HEADER_SIZE
        } else {
            0
        };
        if max_payload < 9 {
            return;
        }
        let ghost rs0 = runs(self.outgoing_nacks.numbers());
        let ghost out0 = payload_views(out@);
        let ghost mut done: Seq<Seq<(nat, nat)>> = Seq::empty();
        while !self.outgoing_nacks.is_empty()
            invariant
                max_payload == nack_payload_size(self.mtu),
                max_payload >= 9,
                self.wf(),
                ReliabilityLayer::same_except_nacks(*old(self), *self),
                self.outgoing_acks == old(self).outgoing_acks,
                rs0 == runs(old(self).outgoing_nacks().numbers()),
                range_groups(rs0, max_payload as nat) == done + range_groups(
                    runs(self.outgoing_nacks.numbers()),
                    max_payload as nat,
                ),
                payload_views(out@) == out0 + ranges_datagrams(
                    DatagramHeader::Nack,
                    done,
                ),
                out0 == payload_views(old(out)@),
            decreases self.outgoing_nacks.numbers().len(),
        {
            let ghost rs = runs(self.outgoing_nacks.numbers());
            let ghost len0 = self.outgoing_nacks.numbers().len();
            proof {
                lemma_fill_count_bound(rs, 2, max_payload as nat);
            }
            let mut list = DatagramRangeList::new();
            let ghost mut j: nat = 0;
            assert(rs.skip(0) =~= rs);
            assert(list@ =~= rs.take(0));
            while !list.is_full(max_payload)
                invariant
                    max_payload >= 9,
                    self.outgoing_nacks.numbers().len() <= len0,
                    list.wf(),
                    list.size() <= max_payload,
                    list@ == rs.take(j as int),
                    j <= rs.len(),
                    runs(self.outgoing_nacks.numbers()) == rs.skip(j as int),
                    j + fill_count(rs.skip(j as int), list.size(), max_payload as nat) == fill_count(
                        rs,
                        2,
                        max_payload as nat,
                    ),
                    j > 0 ==> self.outgoing_nacks.numbers().len() < len0,
                    self.wf(),
                    ReliabilityLayer::same_except_nacks(*old(self), *self),
                    self.outgoing_acks == old(self).outgoing_acks,
                ensures
                    fill_count(rs.skip(j as int), list.size(), max_payload as nat) == 0,
                    list.wf(),
                    list.size() <= max_payload,
                    list@ == rs.take(j as int),
                    j <= rs.len(),
                    runs(self.outgoing_nacks.numbers()) == rs.skip(j as int),
                    j + fill_count(rs.skip(j as int), list.size(), max_payload as nat) == fill_count(
                        rs,
                        2,
                        max_payload as nat,
                    ),
                    j > 0 ==> self.outgoing_nacks.numbers().len() < len0,
                    self.wf(),
                    ReliabilityLayer::same_except_nacks(*old(self), *self),
                    self.outgoing_acks == old(self).outgoing_acks,
                decreases self.outgoing_nacks.numbers().len(),
            {
                proof {
                    lemma_run_len(self.outgoing_nacks.numbers());
                    list.lemma_size();
                }
                let ghost before = self.outgoing_nacks.numbers();
                match self.outgoing_nacks.pop_range() {
                    Some(range) => {
                        assert(runs(before) == seq![range@] + runs(self.outgoing_nacks.numbers()));
                        assert(rs.skip(j as int)[0] == range@);
                        assert(rs.skip(j as int).drop_first() =~= rs.skip(j as int + 1));
                        list.push(range);
                        proof {
                            assert(list@ =~= rs.take(j as int + 1));
                            j = j + 1;
                        }
                    },
                    None => {
                        assert(rs.skip(j as int) =~= Seq::<(nat, nat)>::empty());
                        break;
                    },
                }
            }
            proof {
                list.lemma_size();
                lemma_ranges_bytes_len(list@);
                lemma_fill_count_bound(rs, 2, max_payload as nat);
            }
            assert(j == fill_count(rs, 2, max_payload as nat));
            assert(j >= 1);
            assert(range_groups(rs, max_payload as nat) == seq![rs.take(j as int)] + range_groups(rs.skip(j as int), max_payload as nat));
            let mut buf: Vec<u8> = Vec::new();
            let header = DatagramHeader::Nack;
            let _ = header.write(&mut buf);
            assert(buf@ =~= header_bytes(header));
            assert(list@.len() <= 0xFFFF);
            let _ = list.write(&mut buf);
            assert(buf@ =~= header_bytes(header) + list_bytes(rs.take(j as int)));
            let ghost before_out = out@;
            out.push(buf);
            assert(payload_views(out@) =~= payload_views(before_out).push(header_bytes(header) + list_bytes(rs.take(j as int))));
            proof {
                assert(ranges_datagrams(header, done.push(rs.take(j as int))) =~= ranges_datagrams(header, done).push(header_bytes(header) + list_bytes(rs.take(j as int))));
                assert(done.push(rs.take(j as int)) + range_groups(rs.skip(j as int), max_payload as nat) =~= done + range_groups(rs, max_payload as nat));
                done = done.push(rs.take(j as int));
            }
        }
        assert(runs(self.outgoing_nacks.numbers()) =~= Seq::<(nat, nat)>::empty());
    }

}

impl ReliabilityLayer {
    /// `r` is the layer of a connection to `remote_addr` (GUID
    /// `remote_guid`, MTU `mtu`) that was just set up at `time`: nothing was
    /// sent, received or queued, and every channel and index starts at zero.
    pub open spec fn fresh(r: ReliabilityLayer, remote_addr: SocketAddress, remote_guid: u64, mtu: u16, time: u64) -> bool {
        &&& r.wf()
        &&& r.acknowledge_handler().sent().len() == 0
        &&& r.acknowledge_handler().next_number() == 0
        &&& r.outgoing_acks().numbers().len() == 0
        &&& r.outgoing_nacks().numbers().len() == 0
        &&& r.outgoing_packet_heap().entries().len() == 0
        &&& r.message_numbers().holes().len() == 0
        &&& r.message_numbers().base() == 0
        &&& r.message_numbers().next_outgoing() == 0
        &&& r.splits() == Map::<u16, crate::split_packet_handler::SplitPacketChannel>::empty()
        &&& r.outgoing_packet_heap().next_weights() == initial_weights()
        &&& forall|i: int|
                0 <= i < NUMBER_OF_ORDERING_CHANNELS ==> {
                    let c = #[trigger] r.channels()[i];
                    &&& c.expected_ordering() == 0
                    &&& c.expected_sequencing() == 0
                    &&& c.offset() == 0
                    &&& c.buffered().len() == 0
                }
        &&& r.spec_remote_addr() == remote_addr
        &&& r.spec_remote_guid() == remote_guid
        &&& r.spec_mtu() == mtu
        &&& r.time_last_datagram() == time
        &&& r.next_ordering_indices() == Seq::new(NUMBER_OF_ORDERING_CHANNELS as nat, |i: int| u24::spec_new(0))
        &&& r.next_sequencing_indices() == Seq::new(NUMBER_OF_ORDERING_CHANNELS as nat, |i: int| u24::spec_new(0))
    }

    /// The state of a new connection to `remote_addr` and `remote_guid`
    /// with the given MTU, created at `time`.
    pub fn new(remote_addr: SocketAddress, remote_guid: u64, mtu: u16, time: u64) -> (r: ReliabilityLayer)
        ensures
            ReliabilityLayer::fresh(r, remote_addr, remote_guid, mtu, time),
    {
        let mut next_ordering_index: Vec<OrderingIndex> = Vec::new();
        let mut next_sequencing_index: Vec<SequencingIndex> = Vec::new();
        let mut i: u8 = 0;
        while i < NUMBER_OF_ORDERING_CHANNELS
            invariant
                i <= NUMBER_OF_ORDERING_CHANNELS,
                next_ordering_index@ == Seq::new(i as nat, |k: int| u24::spec_new(0)),
                next_sequencing_index@ == Seq::new(i as nat, |k: int| u24::spec_new(0)),
            decreases NUMBER_OF_ORDERING_CHANNELS - i,
        {
            let zero = u24::zero();
            proof {
                u24::lemma_spec_new_view(zero);
            }
            next_ordering_index.push(zero);
            next_sequencing_index.push(zero);
            i = i + 1;
            assert(next_ordering_index@ =~= Seq::new(i as nat, |k: int| u24::spec_new(0)));
            assert(next_sequencing_index@ =~= Seq::new(i as nat, |k: int| u24::spec_new(0)));
        }
        let r = ReliabilityLayer {
            acknowledge_handler: AcknowledgeHandler::new(remote_addr, remote_guid),
            outgoing_acks: OutgoingAcknowledgements::new(),
            outgoing_nacks: OutgoingNacks::new(),
            outgoing_packet_heap: OutgoingPacketHeap::new(),
            reliable_message_number_handler: ReliableMessageNumberHandler::new(),
            ordering_system: OrderingSystem::new(),
            split_packet_handler: SplitPacketHandler::new(),
            remote_addr,
            remote_guid,
            mtu,
            time_last_datagram_arrived: time,
            next_ordering_index,
            next_sequencing_index,
        };
        r
    }

    /// Restarts the sequencing of an ordering channel.
    fn clear_sequencing_index(&mut self, ordering_channel_index: u8)
        requires
            old(self).wf(),
            ordering_channel_index < NUMBER_OF_ORDERING_CHANNELS,
        ensures
            final(self).wf(),
            final(self).next_sequencing_indices() == old(self).next_sequencing_indices().update(
                ordering_channel_index as int,
                u24::spec_new(0),
            ),
            final(self).next_ordering_indices() == old(self).next_ordering_indices(),
            final(self).outgoing_packet_heap() == old(self).outgoing_packet_heap(),
            ReliabilityLayer::same_except_indices(*old(self), *final(self)),
    {
        let zero = u24::zero();
        proof {
            u24::lemma_spec_new_view(zero);
        }
        self.next_sequencing_index.set(ordering_channel_index as usize, zero);
    }

    /// The next ordering index of an ordering channel.
    fn get_ordering_index(&self, ordering_channel_index: u8) -> (r: OrderingIndex)
        requires
            self.wf(),
            ordering_channel_index < NUMBER_OF_ORDERING_CHANNELS,
        ensures
            r == self.next_ordering_indices()[ordering_channel_index as int],
    {
        self.next_ordering_index[ordering_channel_index as usize]
    }

    /// The next ordering index of an ordering channel, which then advances
    /// by one (with wrap-around).
    fn get_and_increment_ordering_index(&mut self, ordering_channel_index: u8) -> (r: OrderingIndex)
        requires
            old(self).wf(),
            ordering_channel_index < NUMBER_OF_ORDERING_CHANNELS,
        ensures
            final(self).wf(),
            r == old(self).next_ordering_indices()[ordering_channel_index as int],
            final(self).next_ordering_indices() == old(self).next_ordering_indices().update(
                ordering_channel_index as int,
                u24::spec_new(wrapping_add_spec(r@, 1)),
            ),
            final(self).next_sequencing_indices() == old(self).next_sequencing_indices(),
            final(self).outgoing_packet_heap() == old(self).outgoing_packet_heap(),
            ReliabilityLayer::same_except_indices(*old(self), *final(self)),
    {
        let ordering_index = self.next_ordering_index[ordering_channel_index as usize];
        let next = ordering_index.wrapping_add(u24::one());
        proof {
            u24::lemma_spec_new_view(next);
        }
        self.next_ordering_index.set(ordering_channel_index as usize, next);
        ordering_index
    }

    /// The next sequencing index of an ordering channel, which then
    /// advances by one (with wrap-around).
    fn get_and_increment_sequencing_index(&mut self, ordering_channel_index: u8) -> (r: SequencingIndex)
        requires
            old(self).wf(),
            ordering_channel_index < NUMBER_OF_ORDERING_CHANNELS,
        ensures
            final(self).wf(),
            r == old(self).next_sequencing_indices()[ordering_channel_index as int],
            final(self).next_sequencing_indices() == old(self).next_sequencing_indices().update(
                ordering_channel_index as int,
                u24::spec_new(wrapping_add_spec(r@, 1)),
            ),
            final(self).next_ordering_indices() == old(self).next_ordering_indices(),
            final(self).outgoing_packet_heap() == old(self).outgoing_packet_heap(),
            ReliabilityLayer::same_except_indices(*old(self), *final(self)),
    {
        let sequencing_index = self.next_sequencing_index[ordering_channel_index as usize];
        let next = sequencing_index.wrapping_add(u24::one());
        proof {
            u24::lemma_spec_new_view(next);
        }
        self.next_sequencing_index.set(ordering_channel_index as usize, next);
        sequencing_index
    }

    /// The largest payload of a packet sent without splitting.
    fn get_max_packet_payload_size(&self) -> (r: u16)
        ensures
            r == max_packet_payload_size(self.spec_mtu()),
    {
        // Bitflags (u8) + data bit length (u16) + reliable message number (u24)
        // + sequencing index (u24) + ordering index (u24) + ordering channel (u8)
        // + split packet count (u32) + split packet ID (u16) + split packet index (u32)
        let max_packet_header_size: u16 = 1 + 2 + 3 + 3 + 3 + 1 + 4 + 2 + 4;
        if self.mtu < UDP_HEADER_SIZE + 4 {
            return 0;
        }
        let room = PacketDatagram::get_max_payload_size(self.mtu);
        if room >= max_packet_header_size {
            room - max_packet_header_size
        } else {
            0
        }
    }

    /// Everything but the next ordering and sequencing indices and the
    /// queued packets is the same in `post` as in `pre`.
    pub open spec fn same_except_indices(pre: ReliabilityLayer, post: ReliabilityLayer) -> bool {
        &&& post.acknowledge_handler() == pre.acknowledge_handler()
        &&& post.outgoing_acks() == pre.outgoing_acks()
        &&& post.outgoing_nacks() == pre.outgoing_nacks()
        &&& post.message_numbers() == pre.message_numbers()
        &&& post.channels() == pre.channels()
        &&& post.splits() == pre.splits()
        &&& post.spec_remote_addr() == pre.spec_remote_addr()
        &&& post.spec_remote_guid() == pre.spec_remote_guid()
        &&& post.spec_mtu() == pre.spec_mtu()
        &&& post.time_last_datagram() == pre.time_last_datagram()
    }

    /// `post` is `pre` with an outgoing packet queued: created at `time`,
    /// with the given priority, reliability, ordering, send receipt and
    /// payload, not split.
    pub open spec fn packet_queued(
        pre: ReliabilityLayer,
        time: u64,
        priority: Priority,
        reliability: Reliability,
        ordering: PacketOrdering,
        receipt: Option<u32>,
        payload: Seq<u8>,
        post: ReliabilityLayer,
    ) -> bool {
        let (ord, ords, seqs) = outgoing_ordering(
            ordering,
            pre.next_ordering_indices(),
            pre.next_sequencing_indices(),
        );
        &&& exists|p: InternalPacket|
            #[trigger] OutgoingPacketHeap::pushed(
                pre.outgoing_packet_heap(),
                priority,
                p,
                post.outgoing_packet_heap(),
            ) && p.spec_creation_time() == time && p.spec_reliability() == queued_reliability(
                reliability,
            ) && p.spec_ordering() == ord && p.spec_split_packet_header() is None
                && p.spec_receipt() == receipt && p.spec_payload() == payload
        &&& post.next_ordering_indices() == ords
        &&& post.next_sequencing_indices() == seqs
        &&& ReliabilityLayer::same_except_indices(pre, post)
    }

    /// The effect of sending a packet on `pre`, giving `post`: it is
    /// queued unless its payload is larger than fits into a datagram
    /// unsplit or the queue's weights are exhausted, when nothing changes.
    pub open spec fn packet_sent(
        pre: ReliabilityLayer,
        time: u64,
        priority: Priority,
        reliability: Reliability,
        ordering: PacketOrdering,
        receipt: Option<u32>,
        payload: Seq<u8>,
        post: ReliabilityLayer,
    ) -> bool {
        if payload.len() > max_packet_payload_size(pre.spec_mtu())
            || !pre.outgoing_packet_heap().has_weight_room() {
            post == pre
        } else {
            ReliabilityLayer::packet_queued(pre, time, priority, reliability, ordering, receipt, payload, post)
        }
    }

    /// Queues a packet for sending. A packet whose payload is larger than
    /// fits into a datagram unsplit is not sent (splitting is not done);
    /// nor is a packet when the queue's weights are exhausted.
    pub fn send_packet(
        &mut self,
        time: u64,
        priority: Priority,
        reliability: Reliability,
        ordering: PacketOrdering,
        receipt: Option<u32>,
        payload: Vec<u8>,
    )
        requires
            old(self).wf(),
        ensures
            final(self).wf(),
            ReliabilityLayer::packet_sent(
                *old(self),
                time,
                priority,
                reliability,
                ordering,
                receipt,
                payload@,
                *final(self),
            ),
    {
        if payload.len() > self.get_max_packet_payload_size() as usize {
            return;
        }
        if !self.outgoing_packet_heap.can_push() {
            return;
        }
        self.send_packet_internal(time, priority, reliability, ordering, receipt, payload);
    }

    /// Queues a packet that fits into a datagram.
    #[verifier::spinoff_prover]
    #[verifier::rlimit(40)]
    fn send_packet_internal(
        &mut self,
        time: u64,
        priority: Priority,
        reliability: Reliability,
        ordering: PacketOrdering,
        receipt: Option<u32>,
        payload: Vec<u8>,
    )
        requires
            old(self).wf(),
            payload@.len() <= max_packet_payload_size(old(self).spec_mtu()),
            old(self).outgoing_packet_heap().has_weight_room(),
        ensures
            final(self).wf(),
            ReliabilityLayer::packet_queued(
                *old(self),
                time,
                priority,
                reliability,
                ordering,
                receipt,
                payload@,
                *final(self),
            ),
    {
        let ghost pre = *self;
        let internal_reliability = match reliability {
            Reliability::Unreliable => InternalReliability::Unreliable,
            Reliability::Reliable => InternalReliability::Reliable(None),
        };
        let internal_ordering = match ordering {
            PacketOrdering::Unordered => InternalOrdering::Unordered,
            PacketOrdering::Ordered(ordering_channel_index) => {
                let ordering_channel_index = if ordering_channel_index < NUMBER_OF_ORDERING_CHANNELS {
                    ordering_channel_index
                } else {
                    0
                };
                let ordering_index = self.get_and_increment_ordering_index(ordering_channel_index);
                self.clear_sequencing_index(ordering_channel_index);
                InternalOrdering::Ordered { ordering_index, ordering_channel_index }
            },
            PacketOrdering::Sequenced(ordering_channel_index) => {
                let ordering_channel_index = if ordering_channel_index < NUMBER_OF_ORDERING_CHANNELS {
                    ordering_channel_index
                } else {
                    0
                };
                let sequencing_index = self.get_and_increment_sequencing_index(ordering_channel_index);
                let ordering_index = self.get_ordering_index(ordering_channel_index);
                InternalOrdering::Sequenced { sequencing_index, ordering_index, ordering_channel_index }
            },
        };
        let ghost (ord, ords, seqs) = outgoing_ordering(
            ordering,
            pre.next_ordering_indices(),
            pre.next_sequencing_indices(),
        );
        assert(internal_ordering == ord);
        assert(self.next_ordering_indices() == ords);
        assert(self.next_sequencing_indices() == seqs);
        let packet = InternalPacket::new(
            time,
            internal_reliability,
            internal_ordering,
            None,
            receipt,
            payload,
        );
        assert(packet.spec_size() <= u16::MAX);
        let ghost heap_before = self.outgoing_packet_heap;
        self.outgoing_packet_heap.push(priority, packet);
        assert(OutgoingPacketHeap::pushed(heap_before, priority, packet, self.outgoing_packet_heap()));
        assert forall|i: int| 0 <= i < self.outgoing_packet_heap.packets().len() implies #[trigger] self.outgoing_packet_heap.packets()[i].spec_size() <= u16::MAX by {
            let k = choose|k: int|
                0 <= k <= heap_before.entries().len() && self.outgoing_packet_heap.packets() == heap_before.packets().insert(k, packet)
                    && self.outgoing_packet_heap.entries() == heap_before.entries().insert(k, self.outgoing_packet_heap.entries()[k])
                    && (forall|j: int| 0 <= j < k ==> heap_before.entries()[j].0 <= self.outgoing_packet_heap.entries()[k].0)
                    && (forall|j: int| k <= j < heap_before.entries().len() ==> heap_before.entries()[j].0 > self.outgoing_packet_heap.entries()[k].0);
            if i < k {
                assert(self.outgoing_packet_heap.packets()[i] == heap_before.packets()[i]);
            } else if i > k {
                assert(self.outgoing_packet_heap.packets()[i] == heap_before.packets()[i - 1]);
            }
        }
    }
}

impl ReliabilityLayer {
    /// Whether the connection is dead at `time`: datagrams are in flight
    /// and no datagram arrived for longer than the ACK timeout.
    pub open spec fn spec_is_ack_timeout(&self, time: u64, config: Config) -> bool {
        &&& self.acknowledge_handler().sent().len() > 0
        &&& elapsed_ms(self.time_last_datagram(), time) > config.ack_timeout_in_ms
    }

    /// Whether the connection is dead at `time`: datagrams are in flight
    /// and no datagram arrived for longer than the ACK timeout.
    pub fn is_ack_timeout(&self, time: u64, config: &Config) -> (r: bool)
        ensures
            r == self.spec_is_ack_timeout(time, *config),
    {
        self.acknowledge_handler.datagrams_in_flight() > 0 && (whole_millis(
            time.saturating_sub(self.time_last_datagram_arrived),
        ) as u128) > config.ack_timeout_in_ms
    }

    /// What one update at `time` does to `pre`, giving `post` and the
    /// datagrams `ds` to send, in order:
    /// - the waiting acknowledgements, once the oldest has waited long
    ///   enough, in ACK datagrams (if the MTU leaves room for a range);
    /// - the waiting negative acknowledgements in NACK datagrams (likewise);
    /// - the queued packets in datagrams of packets, as `flush` says.
    pub open spec fn updated(pre: ReliabilityLayer, time: u64, post: ReliabilityLayer, ds: Seq<Seq<u8>>) -> bool {
        let ack_max = ack_payload_size(pre.spec_mtu());
        let send_acks = (pre.outgoing_acks().oldest_time() matches Some(t) && time > t
            + TIME_BEFORE_SENDING_ACKS) && ack_max >= 9;
        let ack_ds = if send_acks {
            ranges_datagrams(
                DatagramHeader::Ack { data_arrival_rate: None },
                range_groups(runs(pre.outgoing_acks().numbers()), ack_max),
            )
        } else {
            Seq::empty()
        };
        let nack_max = nack_payload_size(pre.spec_mtu());
        let send_nacks = pre.outgoing_nacks().numbers().len() > 0 && nack_max >= 9;
        let nack_ds = if send_nacks {
            ranges_datagrams(
                DatagramHeader::Nack,
                range_groups(runs(pre.outgoing_nacks().numbers()), nack_max),
            )
        } else {
            Seq::empty()
        };
        let (k, msg, sent, next, packet_ds) = flush(
            pre.outgoing_packet_heap().packets(),
            pre.message_numbers().next_outgoing(),
            pre.acknowledge_handler().sent(),
            pre.acknowledge_handler().next_number(),
            time,
            max_payload_size(pre.spec_mtu()),
        );
        &&& ds == ack_ds + nack_ds + packet_ds
        &&& if send_acks {
            post.outgoing_acks().numbers().len() == 0
        } else {
            post.outgoing_acks() == pre.outgoing_acks()
        }
        &&& if send_nacks {
            post.outgoing_nacks().numbers().len() == 0
        } else {
            post.outgoing_nacks() == pre.outgoing_nacks()
        }
        &&& post.outgoing_packet_heap().packets() == pre.outgoing_packet_heap().packets().skip(k as int)
        &&& post.outgoing_packet_heap().entries() == pre.outgoing_packet_heap().entries().skip(k as int)
        &&& post.outgoing_packet_heap().next_weights() == pre.outgoing_packet_heap().next_weights()
        &&& post.message_numbers().next_outgoing() == msg
        &&& post.message_numbers().holes() == pre.message_numbers().holes()
        &&& post.message_numbers().base() == pre.message_numbers().base()
        &&& post.acknowledge_handler().sent() == sent
        &&& post.acknowledge_handler().next_number() == next
        &&& post.acknowledge_handler().spec_remote_addr() == pre.acknowledge_handler().spec_remote_addr()
        &&& post.acknowledge_handler().spec_remote_guid() == pre.acknowledge_handler().spec_remote_guid()
        &&& post.channels() == pre.channels()
        &&& post.splits() == pre.splits()
        &&& post.spec_remote_addr() == pre.spec_remote_addr()
        &&& post.spec_remote_guid() == pre.spec_remote_guid()
        &&& post.spec_mtu() == pre.spec_mtu()
        &&& post.time_last_datagram() == pre.time_last_datagram()
        &&& post.next_ordering_indices() == pre.next_ordering_indices()
        &&& post.next_sequencing_indices() == pre.next_sequencing_indices()
    }

    /// Sends what is due at `time` and returns the datagrams to send to the
    /// remote peer. A dead connection (see `is_ack_timeout`) sends nothing.
    pub fn update(&mut self, time: u64, config: &Config) -> (r: Vec<Vec<u8>>)
        requires
            old(self).wf(),
            time <= u64::MAX - retransmission_timeout(),
        ensures
            final(self).wf(),
            old(self).spec_is_ack_timeout(time, *config) ==> *final(self) == *old(self) && r@.len() == 0,
            !old(self).spec_is_ack_timeout(time, *config) ==> ReliabilityLayer::updated(
                *old(self),
                time,
                *final(self),
                payload_views(r@),
            ),
    {
        let mut out: Vec<Vec<u8>> = Vec::new();
        if self.is_ack_timeout(time, config) {
            // The connection is dead and will be dropped.
            return out;
        }
        if self.outgoing_acks.should_send_acks(time) {
            self.send_acks(&mut out);
        }
        let ghost ack_ds = payload_views(out@);
        if !self.outgoing_nacks.is_empty() {
            self.send_nacks(&mut out);
        }
        let ghost nack_out = payload_views(out@);
        assert(payload_views(Seq::<Vec<u8>>::empty()) =~= Seq::<Seq<u8>>::empty());
        assert(nack_out =~= ack_ds + nack_out.skip(ack_ds.len() as int));
        self.send_queued_packets(time, &mut out);
        let ghost all = payload_views(out@);
        assert(all =~= ack_ds + nack_out.skip(ack_ds.len() as int) + all.skip(nack_out.len() as int));
        out
    }

    /// Only the queued packets, the message numbers given and the
    /// datagrams in flight may differ between `pre` and `post`.
    pub open spec fn same_except_sending(pre: ReliabilityLayer, post: ReliabilityLayer) -> bool {
        &&& post.outgoing_packet_heap().next_weights() == pre.outgoing_packet_heap().next_weights()
        &&& post.message_numbers().holes() == pre.message_numbers().holes()
        &&& post.message_numbers().base() == pre.message_numbers().base()
        &&& post.acknowledge_handler().spec_remote_addr() == pre.acknowledge_handler().spec_remote_addr()
        &&& post.acknowledge_handler().spec_remote_guid() == pre.acknowledge_handler().spec_remote_guid()
        &&& post.outgoing_acks() == pre.outgoing_acks()
        &&& post.outgoing_nacks() == pre.outgoing_nacks()
        &&& post.channels() == pre.channels()
        &&& post.splits() == pre.splits()
        &&& post.spec_remote_addr() == pre.spec_remote_addr()
        &&& post.spec_remote_guid() == pre.spec_remote_guid()
        &&& post.spec_mtu() == pre.spec_mtu()
        &&& post.time_last_datagram() == pre.time_last_datagram()
        &&& post.next_ordering_indices() == pre.next_ordering_indices()
        &&& post.next_sequencing_indices() == pre.next_sequencing_indices()
    }

    /// Takes the queued packets that fit into the next datagram, gives
    /// their reliable packets message numbers, and returns the datagram.
    fn fill_datagram(&mut self) -> (datagram: PacketDatagram)
        requires
            old(self).wf(),
            old(self).spec_mtu() >= UDP_HEADER_SIZE + 4,
        ensures
            final(self).wf(),
            ReliabilityLayer::same_except_sending(*old(self), *final(self)),
            final(self).acknowledge_handler() == old(self).acknowledge_handler(),
            datagram.wf(),
            datagram.spec_header() == packet_datagram_header(old(self).acknowledge_handler().next_number()),
            ({
                let q = old(self).outgoing_packet_heap().packets();
                let k = fitting_count(q, 0, max_payload_size(old(self).spec_mtu()));
                let m = old(self).message_numbers().next_outgoing();
                &&& k <= q.len()
                &&& datagram.packets() == number_packets(q.take(k as int), m).0
                &&& final(self).message_numbers().next_outgoing() == number_packets(q.take(k as int), m).1
                &&& final(self).outgoing_packet_heap().packets() == q.skip(k as int)
                &&& final(self).outgoing_packet_heap().entries() == old(self).outgoing_packet_heap().entries().skip(k as int)
            }),
    {
        let ghost maxp = max_payload_size(self.mtu);
        let ghost q = self.outgoing_packet_heap.packets();
        let ghost e = self.outgoing_packet_heap.entries();
        let ghost m = self.reliable_message_number_handler.next_outgoing();
        let ghost kk = fitting_count(q, 0, maxp);
        proof {
            lemma_fitting_count_bound(q, 0, maxp);
        }
        let number = self.acknowledge_handler.get_next_datagram_number();
        proof {
            u24::lemma_spec_new_view(number);
        }
        let mut datagram = PacketDatagram::new(number);
        let ghost mut j: nat = 0;
        assert(q.skip(0) =~= q);
        assert(e.skip(0) =~= e);
        assert(q.take(0) =~= Seq::<InternalPacket>::empty());
        loop
            invariant
                self.wf(),
                ReliabilityLayer::same_except_sending(*old(self), *self),
                self.acknowledge_handler == old(self).acknowledge_handler,
                self.mtu >= UDP_HEADER_SIZE + 4,
                maxp == max_payload_size(self.mtu),
                e.len() == q.len(),
                q == old(self).outgoing_packet_heap.packets(),
                datagram.wf(),
                datagram.spec_header() == packet_datagram_header(old(self).acknowledge_handler().next_number()),
                j <= q.len(),
                self.outgoing_packet_heap.packets() == q.skip(j as int),
                self.outgoing_packet_heap.entries() == e.skip(j as int),
                datagram.packets() == number_packets(q.take(j as int), m).0,
                self.reliable_message_number_handler.next_outgoing() == number_packets(q.take(j as int), m).1,
                datagram.payload_size() == packets_size(q.take(j as int)),
                datagram.payload_size() <= maxp || j == 0,
                j + fitting_count(q.skip(j as int), packets_size(q.take(j as int)), maxp) == kk,
            ensures
                j == kk,
            decreases self.outgoing_packet_heap.packets().len(),
        {
            let fits = match self.outgoing_packet_heap.peek() {
                Some(packet) => {
                    assert(self.outgoing_packet_heap.packets()[0].spec_size() <= u16::MAX);
                    datagram.has_room_for(packet, self.mtu)
                },
                None => false,
            };
            if !fits {
                assert(fitting_count(q.skip(j as int), packets_size(q.take(j as int)), maxp) == 0);
                break;
            }
            let ghost p = q[j as int];
            assert(q.skip(j as int)[0] == p);
            assert(q.skip(j as int).drop_first() =~= q.skip(j as int + 1));
            assert(e.skip(j as int).drop_first() =~= e.skip(j as int + 1));
            assert(q.take(j as int + 1).drop_last() =~= q.take(j as int));
            assert(q.take(j as int + 1).last() == p);
            let mut packet = match self.outgoing_packet_heap.pop() {
                Some(packet) => packet,
                None => {
                    break;
                },
            };
            assert(packet == p);
            if let InternalReliability::Reliable(None) = packet.reliability() {
                let number = self.reliable_message_number_handler.get_and_increment_reliable_message_number();
                proof {
                    u24::lemma_spec_new_view(number);
                }
                packet.set_reliability(InternalReliability::Reliable(Some(number)));
            }
            proof {
                p.lemma_with_reliability(packet.spec_reliability());
            }
            assert(packet.spec_size() == p.spec_size());
            datagram.push(packet);
            proof {
                j = j + 1;
            }
            assert forall|i: int| 0 <= i < self.outgoing_packet_heap.packets().len() implies #[trigger] self.outgoing_packet_heap.packets()[i].spec_size() <= u16::MAX by {
                assert(self.outgoing_packet_heap.packets()[i] == q[j + i]);
                assert(q[j + i] == old(self).outgoing_packet_heap.packets()[j + i]);
            }
        }
        datagram
    }

    /// Sends the queued packets that are due at `time`, as `flush` says,
    /// appending the datagrams to `out`.
    fn send_queued_packets(&mut self, time: u64, out: &mut Vec<Vec<u8>>)
        requires
            old(self).wf(),
            time <= u64::MAX - retransmission_timeout(),
        ensures
            final(self).wf(),
            ReliabilityLayer::same_except_sending(*old(self), *final(self)),
            ({
                let (k, msg, sent, next, ds) = flush(
                    old(self).outgoing_packet_heap().packets(),
                    old(self).message_numbers().next_outgoing(),
                    old(self).acknowledge_handler().sent(),
                    old(self).acknowledge_handler().next_number(),
                    time,
                    max_payload_size(old(self).spec_mtu()),
                );
                &&& payload_views(final(out)@) == payload_views(old(out)@) + ds
                &&& final(self).outgoing_packet_heap().packets() == old(self).outgoing_packet_heap().packets().skip(k as int)
                &&& final(self).outgoing_packet_heap().entries() == old(self).outgoing_packet_heap().entries().skip(k as int)
                &&& final(self).message_numbers().next_outgoing() == msg
                &&& final(self).acknowledge_handler().sent() == sent
                &&& final(self).acknowledge_handler().next_number() == next
            }),
    {
        let ghost maxp = max_payload_size(self.mtu);
        let ghost q0 = self.outgoing_packet_heap.packets();
        let ghost e0 = self.outgoing_packet_heap.entries();
        let ghost out0 = payload_views(out@);
        assert(q0.skip(0) =~= q0);
        assert(e0.skip(0) =~= e0);
        assert(e0.len() == q0.len());
        if self.mtu < UDP_HEADER_SIZE + 4 {
            // No packet fits into a datagram.
            assert(fitting_count(q0, 0, maxp) == 0);
            assert(payload_views(out@) =~= out0 + Seq::<Seq<u8>>::empty());
            return;
        }
        let ghost mut c: nat = 0;
        let ghost mut done: Seq<Seq<u8>> = Seq::empty();
        let ghost total = flush(
            q0,
            self.reliable_message_number_handler.next_outgoing(),
            self.acknowledge_handler.sent(),
            self.acknowledge_handler.next_number(),
            time,
            maxp,
        );
        assert(out0 + done =~= out0);
        loop
            invariant_except_break
                ({
                    let f = flush(
                        self.outgoing_packet_heap.packets(),
                        self.reliable_message_number_handler.next_outgoing(),
                        self.acknowledge_handler.sent(),
                        self.acknowledge_handler.next_number(),
                        time,
                        maxp,
                    );
                    total == (c + f.0, f.1, f.2, f.3, done + f.4)
                }),
            invariant
                self.wf(),
                ReliabilityLayer::same_except_sending(*old(self), *self),
                time <= u64::MAX - retransmission_timeout(),
                self.mtu >= UDP_HEADER_SIZE + 4,
                maxp == max_payload_size(self.mtu),
                c <= q0.len(),
                e0.len() == q0.len(),
                self.outgoing_packet_heap.packets() == q0.skip(c as int),
                self.outgoing_packet_heap.entries() == e0.skip(c as int),
                payload_views(out@) == out0 + done,
            ensures
                total == (
                    c,
                    self.reliable_message_number_handler.next_outgoing(),
                    self.acknowledge_handler.sent(),
                    self.acknowledge_handler.next_number(),
                    done,
                ),
            decreases self.outgoing_packet_heap.packets().len(),
        {
            let ghost q = self.outgoing_packet_heap.packets();
            let ghost m = self.reliable_message_number_handler.next_outgoing();
            let ghost sent = self.acknowledge_handler.sent();
            let ghost n = self.acknowledge_handler.next_number();
            let ghost kk = fitting_count(q, 0, maxp);
            let datagram = self.fill_datagram();
            if datagram.is_empty() {
                assert(number_packets(q.take(kk as int), m).0.len() == kk) by {
                    lemma_number_packets_len(q.take(kk as int), m);
                }
                assert(kk == 0);
                break;
            }
            let ghost group = datagram.packets();
            let ghost m1 = self.reliable_message_number_handler.next_outgoing();
            let mut buf: Vec<u8> = Vec::new();
            match self.acknowledge_handler.process_outgoing_datagram(datagram, time, &mut buf) {
                Ok(()) => {
                    let ghost bytes = buf@;
                    let ghost before_out = out@;
                    out.push(buf);
                    assert(payload_views(out@) =~= payload_views(before_out).push(bytes));
                    proof {
                        let rest = flush(
                            self.outgoing_packet_heap.packets(),
                            self.reliable_message_number_handler.next_outgoing(),
                            self.acknowledge_handler.sent(),
                            self.acknowledge_handler.next_number(),
                            time,
                            maxp,
                        );
                        assert(flush(q, m, sent, n, time, maxp) == (kk + rest.0, rest.1, rest.2, rest.3, seq![bytes] + rest.4));
                        assert(done + (seq![bytes] + rest.4) =~= done.push(bytes) + rest.4);
                        assert(q0.skip(c as int).skip(kk as int) =~= q0.skip((c + kk) as int));
                        assert(e0.skip(c as int).skip(kk as int) =~= e0.skip((c + kk) as int));
                        c = c + kk;
                        done = done.push(bytes);
                    }
                },
                Err(_) => {
                    proof {
                        assert(flush(q, m, sent, n, time, maxp) == (kk, m1, sent, n, Seq::<Seq<u8>>::empty()));
                        assert(done + Seq::<Seq<u8>>::empty() =~= done);
                        assert(q0.skip(c as int).skip(kk as int) =~= q0.skip((c + kk) as int));
                        assert(e0.skip(c as int).skip(kk as int) =~= e0.skip((c + kk) as int));
                        c = c + kk;
                    }
                    break;
                },
            }
        }
        assert(payload_views(out@) == out0 + total.4);
    }
}

/// A reliable packet is delivered at most once: when a packet with the
/// same message number arrives again after the first one was handled, it
/// gives the user nothing.
pub proof fn lemma_reliable_packet_delivered_once(
    pre: ReliabilityLayer,
    f: PacketFields,
    time: u64,
    mid: ReliabilityLayer,
    out: Seq<Packet>,
    g: PacketFields,
    time2: u64,
    post: ReliabilityLayer,
    out2: Seq<Packet>,
    n: u24,
)
    requires
        pre.wf(),
        f.0 == InternalReliability::Reliable(Some(n)),
        g.0 == f.0,
        ReliabilityLayer::delivered(pre, f, time, mid, out),
        ReliabilityLayer::delivered(mid, g, time2, post, out2),
    ensures
        out2.len() == 0,
{
    let numbers = pre.message_numbers();
    let holes = numbers.holes();
    let base = numbers.base();
    numbers.lemma_base_bound();
    let (discard, h2, b2) = spec_should_discard(holes, base, n@);
    if !discard {
        lemma_accepted_then_duplicate(holes, base, n@);
    }
    assert(spec_should_discard(mid.message_numbers().holes(), mid.message_numbers().base(), n@).0);
}

} // verus!
