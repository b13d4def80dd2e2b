//! A datagram of packets under construction.

use vstd::prelude::*;

use crate::constants::UDP_HEADER_SIZE;
use crate::datagram_header::{header_bytes, DatagramHeader};
use crate::error::{Error, WriteError};
use crate::internal_packet::{spec_kind, spec_packet_bytes, spec_writable, InternalPacket};
use crate::number::DatagramSequenceNumber;

verus! {

/// The packet can be written.
pub open spec fn packet_writable(p: InternalPacket) -> bool {
    spec_writable(p.spec_reliability(), p.spec_ordering(), p.spec_payload().len())
}

/// The error writing a packet that cannot be written fails with.
pub open spec fn packet_write_error(p: InternalPacket) -> Error {
    if spec_kind(p.spec_reliability(), p.spec_ordering()) is Some && p.spec_payload().len() > 8191 {
        Error::WriteError(WriteError::PayloadTooLarge)
    } else {
        Error::WriteError(WriteError::InvalidHeader)
    }
}

/// The encodings of the packets, one after the other.
pub open spec fn packets_bytes(ps: Seq<InternalPacket>) -> Seq<u8>
    decreases ps.len(),
{
    if ps.len() == 0 {
        Seq::empty()
    } else {
        packets_bytes(ps.drop_last()) + spec_packet_bytes(
            ps.last().spec_reliability(),
            ps.last().spec_ordering(),
            ps.last().spec_split_packet_header(),
            ps.last().spec_payload(),
        )
    }
}

/// The total encoded size of the packets.
pub open spec fn packets_size(ps: Seq<InternalPacket>) -> nat
    decreases ps.len(),
{
    if ps.len() == 0 {
        0
    } else {
        packets_size(ps.drop_last()) + ps.last().spec_size()
    }
}

/// The largest payload a datagram may carry for an MTU: the MTU less the
/// IP and UDP headers and the datagram header (flags and number).
pub open spec fn max_payload_size(mtu: u16) -> int {
    mtu - UDP_HEADER_SIZE - 4
}

/// A datagram of packets and the total size of its packets.
pub struct PacketDatagram {
    header: DatagramHeader,
    packets: Vec<InternalPacket>,
    payload_size: u16,
}

impl PacketDatagram {
    /// The datagram header.
    pub closed spec fn spec_header(&self) -> DatagramHeader {
        self.header
    }

    /// The packets, in the order they were pushed.
    pub closed spec fn packets(&self) -> Seq<InternalPacket> {
        self.packets@
    }

    /// The recorded total size of the packets.
    pub closed spec fn payload_size(&self) -> nat {
        self.payload_size as nat
    }

    /// The recorded size is the total size of the packets.
    pub open spec fn wf(&self) -> bool {
        self.payload_size() == packets_size(self.packets())
    }

    /// An empty datagram with the given sequence number.
    pub fn new(datagram_number: DatagramSequenceNumber) -> (r: PacketDatagram)
        ensures
            r.wf(),
            r.spec_header() == (DatagramHeader::Packet {
                is_packet_pair: false,
                is_continuous_send: false,
                needs_data_arrival_rate: false,
                datagram_number,
            }),
            r.packets() == Seq::<InternalPacket>::empty(),
    {
        let r = PacketDatagram {
            header: DatagramHeader::Packet {
                is_packet_pair: false,
                is_continuous_send: false,
                needs_data_arrival_rate: false,
                datagram_number,
            },
            packets: Vec::new(),
            payload_size: 0,
        };
        assert(r.packets() =~= Seq::<InternalPacket>::empty());
        r
    }

    /// Appends a packet.
    pub fn push(&mut self, packet: InternalPacket)
        requires
            old(self).wf(),
            old(self).payload_size() + packet.spec_size() <= u16::MAX,
        ensures
            final(self).wf(),
            final(self).spec_header() == old(self).spec_header(),
            final(self).packets() == old(self).packets().push(packet),
            final(self).payload_size() == old(self).payload_size() + packet.spec_size(),
    {
        let ghost ps = self.packets@;
        self.payload_size = self.payload_size + packet.get_size_in_bytes();
        self.packets.push(packet);
        assert(self.packets@.drop_last() =~= ps);
    }

    /// Appends the header and the packets. Fails at the first packet that
    /// cannot be written, with that packet's error.
    pub fn write(&self, buf: &mut Vec<u8>) -> (r: Result<(), Error>)
        ensures
            (r is Ok) == (forall|i: int|
                0 <= i < self.packets().len() ==> #[trigger] packet_writable(self.packets()[i])),
            r is Ok ==> final(buf)@ == old(buf)@ + header_bytes(self.spec_header()) + packets_bytes(
                self.packets(),
            ),
            r matches Err(e) ==> exists|i: int|
                0 <= i < self.packets().len() && !packet_writable(self.packets()[i]) && (forall|
                    j: int,
                | 0 <= j < i ==> #[trigger] packet_writable(self.packets()[j])) && e
                    == packet_write_error(self.packets()[i]),
    {
        self.header.write(buf)?;
        let ghost start = buf@;
        let mut i: usize = 0;
        while i < self.packets.len()
            invariant
                i <= self.packets@.len(),
                forall|j: int| 0 <= j < i ==> #[trigger] packet_writable(self.packets()[j]),
                buf@ == start + packets_bytes(self.packets().take(i as int)),
            decreases self.packets@.len() - i,
        {
            let ghost before = buf@;
            match self.packets[i].write(buf) {
                Ok(()) => {},
                Err(e) => {
                    assert(!packet_writable(self.packets()[i as int]));
                    return Err(e);
                },
            }
            assert(self.packets().take(i as int + 1).drop_last() =~= self.packets().take(i as int));
            i = i + 1;
            assert(buf@ =~= start + packets_bytes(self.packets().take(i as int)));
        }
        assert(self.packets().take(i as int) =~= self.packets());
        Ok(())
    }

    /// Whether `packet` still fits into a datagram for the given MTU.
    pub fn has_room_for(&self, packet: &InternalPacket, mtu: u16) -> (r: bool)
        requires
            self.wf(),
            mtu >= UDP_HEADER_SIZE + 4,
            packet.spec_size() <= u16::MAX,
        ensures
            r == (self.payload_size() + packet.spec_size() <= max_payload_size(mtu)),
    {
        let packet_size = packet.get_size_in_bytes();
        self.payload_size as u32 + packet_size as u32 <= Self::get_max_payload_size(mtu) as u32
    }

    /// The total size of the packets.
    pub fn payload_size_in_bytes(&self) -> (r: u16)
        ensures
            r == self.payload_size(),
    {
        self.payload_size
    }

    /// The largest payload a datagram may carry for an MTU.
    pub fn get_max_payload_size(mtu: u16) -> (r: u16)
        requires
            mtu >= UDP_HEADER_SIZE + 4,
        ensures
            r == max_payload_size(mtu),
    {
        // Datagram bitflags (u8) + datagram number (u24)
        let datagram_header_size: u16 = 1 + 3;
        mtu - UDP_HEADER_SIZE - datagram_header_size
    }

    /// Whether the datagram holds no packet.
    pub fn is_empty(&self) -> (r: bool)
        ensures
            r == (self.packets().len() == 0),
    {
        self.packets.len() == 0
    }

    /// The packets, in the order they were pushed.
    pub fn into_packets(self) -> (r: Vec<InternalPacket>)
        ensures
            r@ == self.packets(),
    {
        self.packets
    }
}

} // verus!
