//! The packets carried inside a datagram: their reliability and ordering
//! header, the optional split packet header and the payload, with their
//! exact wire format.

use vstd::prelude::*;

use crate::codec::{
    lemma_u16_le_roundtrip, lemma_u24_le_roundtrip, lemma_u32_roundtrip, u16_be_bytes,
    u16_be_value, u24_le_bytes, u32_be_bytes,
};
use crate::error::{Error, ReadError, WriteError};
use crate::number::{
    lemma_u24_bound, lemma_u24_view_injective, u24, MessageNumber, OrderingChannelIndex,
    OrderingIndex, SequencingIndex,
};
use crate::reader::{
    lemma_read_bytes, lemma_read_u16_be, lemma_read_u24, lemma_read_u32_be, lemma_read_u8, spec_bytes,
    spec_u16_be, spec_u24, spec_u32_be, spec_u8, DataReader,
};
use crate::writer::{write_bytes, write_u16_be, write_u24, write_u32_be, write_u8};

verus! {

/// Whether a packet is delivered reliably, and its message number once one
/// has been assigned.
#[derive(Clone, Copy, Debug, PartialEq, Eq, Structural)]
pub enum InternalReliability {
    Unreliable,
    Reliable(Option<MessageNumber>),
}

/// How a packet is ordered relative to the other packets of its channel.
#[derive(Clone, Copy, Debug, PartialEq, Eq, Structural)]
pub enum InternalOrdering {
    /// Delivered as soon as it arrives.
    Unordered,
    Ordered { ordering_index: OrderingIndex, ordering_channel_index: OrderingChannelIndex },
    Sequenced {
        sequencing_index: SequencingIndex,
        ordering_index: OrderingIndex,
        ordering_channel_index: OrderingChannelIndex,
    },
}

/// Describes which part of a split packet a packet carries.
#[derive(Clone, Copy, Debug, PartialEq, Eq, Structural)]
pub struct SplitPacketHeader {
    split_packet_count: u32,
    split_packet_id: u16,
    split_packet_index: u32,
}

/// The size in bytes of an encoded split packet header.
pub open spec fn split_header_size() -> nat {
    10
}

impl SplitPacketHeader {
    /// The number of parts of the split packet.
    pub closed spec fn count(self) -> u32 {
        self.split_packet_count
    }

    /// The identifier shared by the parts of one split packet.
    pub closed spec fn id(self) -> u16 {
        self.split_packet_id
    }

    /// The index of this part.
    pub closed spec fn index(self) -> u32 {
        self.split_packet_index
    }

    /// The header with the given fields.
    pub closed spec fn spec_new(count: u32, id: u16, index: u32) -> SplitPacketHeader {
        SplitPacketHeader { split_packet_count: count, split_packet_id: id, split_packet_index: index }
    }

    /// The encoding: count, id and index, each big-endian.
    pub open spec fn spec_bytes(self) -> Seq<u8> {
        u32_be_bytes(self.count()) + u16_be_bytes(self.id()) + u32_be_bytes(self.index())
    }

    /// Reading a header from `s`.
    pub open spec fn spec_read(s: Seq<u8>) -> Result<(SplitPacketHeader, Seq<u8>), Error> {
        match spec_u32_be(s) {
            Err(e) => Err(e),
            Ok((count, s1)) => match spec_u16_be(s1) {
                Err(e) => Err(e),
                Ok((id, s2)) => match spec_u32_be(s2) {
                    Err(e) => Err(e),
                    Ok((index, s3)) => Ok((SplitPacketHeader::spec_new(count, id, index), s3)),
                },
            },
        }
    }

    /// The fields of a header built from given fields.
    pub proof fn lemma_spec_new(count: u32, id: u16, index: u32)
        ensures
            SplitPacketHeader::spec_new(count, id, index).count() == count,
            SplitPacketHeader::spec_new(count, id, index).id() == id,
            SplitPacketHeader::spec_new(count, id, index).index() == index,
    {
    }

    pub fn new(split_packet_count: u32, split_packet_id: u16, split_packet_index: u32) -> (r:
        SplitPacketHeader)
        ensures
            r.count() == split_packet_count,
            r.id() == split_packet_id,
            r.index() == split_packet_index,
            r == SplitPacketHeader::spec_new(split_packet_count, split_packet_id, split_packet_index),
    {
        SplitPacketHeader { split_packet_count, split_packet_id, split_packet_index }
    }

    /// Reads a header: count, id and index, each big-endian.
    pub fn read(reader: &mut DataReader) -> (r: Result<SplitPacketHeader, Error>)
        ensures
            match SplitPacketHeader::spec_read(old(reader)@) {
                Ok((h, rest)) => r == Ok::<SplitPacketHeader, Error>(h) && final(reader)@ == rest,
                Err(e) => r == Err::<SplitPacketHeader, Error>(e) && final(reader)@.len() <= old(
                    reader,
                )@.len(),
            },
    {
        let split_packet_count = reader.read_u32_be()?;
        let split_packet_id = reader.read_u16_be()?;
        let split_packet_index = reader.read_u32_be()?;
        Ok(SplitPacketHeader { split_packet_count, split_packet_id, split_packet_index })
    }

    /// Appends the encoding of the header.
    pub fn write(&self, buf: &mut Vec<u8>)
        ensures
            final(buf)@ == old(buf)@ + self.spec_bytes(),
    {
        write_u32_be(buf, self.split_packet_count);
        write_u16_be(buf, self.split_packet_id);
        write_u32_be(buf, self.split_packet_index);
        assert(buf@ =~= old(buf)@ + self.spec_bytes());
    }

    pub fn split_packet_count(&self) -> (r: u32)
        ensures
            r == self.count(),
    {
        self.split_packet_count
    }

    pub fn split_packet_id(&self) -> (r: u16)
        ensures
            r == self.id(),
    {
        self.split_packet_id
    }

    pub fn split_packet_index(&self) -> (r: u32)
        ensures
            r == self.index(),
    {
        self.split_packet_index
    }
}

/// The reliability kind stored in bits 7-5 of the packet flags, or `None`
/// for the combination that has no encoding (unreliable and ordered).
pub open spec fn spec_kind(reliability: InternalReliability, ordering: InternalOrdering) -> Option<
    u8,
> {
    match (reliability, ordering) {
        (InternalReliability::Unreliable, InternalOrdering::Unordered) => Some(0u8),
        (InternalReliability::Unreliable, InternalOrdering::Sequenced { .. }) => Some(1u8),
        (InternalReliability::Reliable(_), InternalOrdering::Unordered) => Some(2u8),
        (InternalReliability::Reliable(_), InternalOrdering::Ordered { .. }) => Some(3u8),
        (InternalReliability::Reliable(_), InternalOrdering::Sequenced { .. }) => Some(4u8),
        _ => None,
    }
}

/// The packet flags: the reliability kind in bits 7-5 and the split flag
/// in bit 4.
pub open spec fn spec_flags(kind: u8, has_split: bool) -> u8 {
    ((kind * 32) + if has_split {
        16u8
    } else {
        0u8
    }) as u8
}

/// The bytes after the bit length: the message number of a reliable
/// packet, then the ordering fields.
pub open spec fn spec_order_bytes(reliability: InternalReliability, ordering: InternalOrdering) -> Seq<
    u8,
> {
    (match reliability {
        InternalReliability::Reliable(Some(n)) => u24_le_bytes(n@ as u32),
        _ => Seq::empty(),
    }) + (match ordering {
        InternalOrdering::Unordered => Seq::empty(),
        InternalOrdering::Ordered { ordering_index, ordering_channel_index } => u24_le_bytes(
            ordering_index@ as u32,
        ).push(ordering_channel_index),
        InternalOrdering::Sequenced { sequencing_index, ordering_index, ordering_channel_index } =>
            u24_le_bytes(sequencing_index@ as u32) + u24_le_bytes(ordering_index@ as u32).push(
            ordering_channel_index,
        ),
    })
}

/// The complete encoding of a packet with a valid header.
pub open spec fn spec_packet_bytes(
    reliability: InternalReliability,
    ordering: InternalOrdering,
    split: Option<SplitPacketHeader>,
    payload: Seq<u8>,
) -> Seq<u8> {
    seq![spec_flags(spec_kind(reliability, ordering).unwrap(), split is Some)] + u16_be_bytes(
        (payload.len() * 8) as u16,
    ) + spec_order_bytes(reliability, ordering) + (match split {
        Some(h) => h.spec_bytes(),
        None => Seq::empty(),
    }) + payload
}

/// A packet header and payload that can be written: the combination of
/// reliability and ordering has an encoding, a reliable packet has its
/// message number, and the bit length of the payload fits in 16 bits.
pub open spec fn spec_writable(
    reliability: InternalReliability,
    ordering: InternalOrdering,
    payload_len: nat,
) -> bool {
    &&& spec_kind(reliability, ordering) is Some
    &&& payload_len <= 8191
    &&& reliability != InternalReliability::Reliable(None)
}

/// Reading the reliability and ordering fields for reliability kind `kind`.
pub open spec fn spec_read_order(kind: u8, s: Seq<u8>) -> Result<
    (InternalReliability, InternalOrdering, Seq<u8>),
    Error,
> {
    if kind == 0 {
        Ok((InternalReliability::Unreliable, InternalOrdering::Unordered, s))
    } else if kind == 1 {
        match spec_u24(s) {
            Err(e) => Err(e),
            Ok((sequencing_index, s1)) => match spec_u24(s1) {
                Err(e) => Err(e),
                Ok((ordering_index, s2)) => match spec_u8(s2) {
                    Err(e) => Err(e),
                    Ok((ordering_channel_index, s3)) => Ok(
                        (
                            InternalReliability::Unreliable,
                            InternalOrdering::Sequenced {
                                sequencing_index,
                                ordering_index,
                                ordering_channel_index,
                            },
                            s3,
                        ),
                    ),
                },
            },
        }
    } else if kind == 2 {
        match spec_u24(s) {
            Err(e) => Err(e),
            Ok((n, s1)) => Ok(
                (InternalReliability::Reliable(Some(n)), InternalOrdering::Unordered, s1),
            ),
        }
    } else if kind == 3 {
        match spec_u24(s) {
            Err(e) => Err(e),
            Ok((n, s1)) => match spec_u24(s1) {
                Err(e) => Err(e),
                Ok((ordering_index, s2)) => match spec_u8(s2) {
                    Err(e) => Err(e),
                    Ok((ordering_channel_index, s3)) => Ok(
                        (
                            InternalReliability::Reliable(Some(n)),
                            InternalOrdering::Ordered { ordering_index, ordering_channel_index },
                            s3,
                        ),
                    ),
                },
            },
        }
    } else if kind == 4 {
        match spec_u24(s) {
            Err(e) => Err(e),
            Ok((n, s1)) => match spec_u24(s1) {
                Err(e) => Err(e),
                Ok((sequencing_index, s2)) => match spec_u24(s2) {
                    Err(e) => Err(e),
                    Ok((ordering_index, s3)) => match spec_u8(s3) {
                        Err(e) => Err(e),
                        Ok((ordering_channel_index, s4)) => Ok(
                            (
                                InternalReliability::Reliable(Some(n)),
                                InternalOrdering::Sequenced {
                                    sequencing_index,
                                    ordering_index,
                                    ordering_channel_index,
                                },
                                s4,
                            ),
                        ),
                    },
                },
            },
        }
    } else {
        Err(Error::ReadError(ReadError::InvalidHeader))
    }
}

/// Reading the optional split packet header.
pub open spec fn spec_read_split(has_split: bool, s: Seq<u8>) -> Result<
    (Option<SplitPacketHeader>, Seq<u8>),
    Error,
> {
    if has_split {
        match SplitPacketHeader::spec_read(s) {
            Err(e) => Err(e),
            Ok((h, s1)) => Ok((Some(h), s1)),
        }
    } else {
        Ok((None, s))
    }
}

/// The number of payload bytes announced by a bit length: the bit length
/// rounded up to whole bytes, computed in 16-bit arithmetic that wraps
/// around, so the largest bit lengths (from 65529) announce no bytes.
pub open spec fn spec_payload_len(bit_length: u16) -> nat {
    ((bit_length as nat + 7) % 0x10000) / 8
}

/// Reading a packet from `s`: its reliability, ordering, split packet
/// header and payload, and the bytes after it.
pub open spec fn spec_read_packet(s: Seq<u8>) -> Result<
    (InternalReliability, InternalOrdering, Option<SplitPacketHeader>, Seq<u8>, Seq<u8>),
    Error,
> {
    match spec_u8(s) {
        Err(e) => Err(e),
        Ok((flags, s1)) => match spec_u16_be(s1) {
            Err(e) => Err(e),
            Ok((bit_length, s2)) => if spec_payload_len(bit_length) == 0 {
                Err(Error::ReadError(ReadError::InvalidHeader))
            } else {
                match spec_read_order(flags >> 5u8, s2) {
                    Err(e) => Err(e),
                    Ok((reliability, ordering, s3)) => match spec_read_split(
                        (flags & 0x10u8) != 0,
                        s3,
                    ) {
                        Err(e) => Err(e),
                        Ok((split, s4)) => match spec_bytes(s4, spec_payload_len(bit_length)) {
                            Err(e) => Err(e),
                            Ok((payload, s5)) => Ok((reliability, ordering, split, payload, s5)),
                        },
                    },
                }
            },
        },
    }
}

/// Reading the ordering fields consumes bytes only from the front.
pub proof fn lemma_read_order_shrinks(kind: u8, s: Seq<u8>)
    ensures
        spec_read_order(kind, s) matches Ok((_, _, rest)) ==> rest.len() <= s.len(),
{
}

/// Reading a packet consumes at least one byte.
pub proof fn lemma_read_packet_shrinks(s: Seq<u8>)
    ensures
        spec_read_packet(s) matches Ok((_, _, _, _, rest)) ==> rest.len() < s.len(),
{
    if let Ok((flags, s1)) = spec_u8(s) {
        if let Ok((bit_length, s2)) = spec_u16_be(s1) {
            lemma_read_order_shrinks(flags >> 5u8, s2);
        }
    }
}

/// Reading the encoding of a split packet header gives the header back.
pub proof fn lemma_split_header_roundtrip(h: SplitPacketHeader, rest: Seq<u8>)
    ensures
        SplitPacketHeader::spec_read(h.spec_bytes() + rest) == Ok::<
            (SplitPacketHeader, Seq<u8>),
            Error,
        >((h, rest)),
{
    let a = u32_be_bytes(h.count());
    let b = u16_be_bytes(h.id());
    let c = u32_be_bytes(h.index());
    assert(h.spec_bytes() + rest =~= a + (b + (c + rest)));
    lemma_read_u32_be(h.count(), b + (c + rest));
    lemma_read_u16_be(h.id(), c + rest);
    lemma_read_u32_be(h.index(), rest);
}

/// Reading the reliability and ordering fields from their encoding gives
/// them back.
proof fn lemma_order_roundtrip(
    reliability: InternalReliability,
    ordering: InternalOrdering,
    rest: Seq<u8>,
)
    requires
        spec_kind(reliability, ordering) is Some,
        reliability != InternalReliability::Reliable(None),
    ensures
        spec_read_order(spec_kind(reliability, ordering).unwrap(), spec_order_bytes(reliability, ordering) + rest)
            == Ok::<(InternalReliability, InternalOrdering, Seq<u8>), Error>((reliability, ordering, rest)),
{
    match (reliability, ordering) {
        (InternalReliability::Unreliable, InternalOrdering::Unordered) => {
            assert(spec_order_bytes(reliability, ordering) + rest =~= rest);
        },
        (
            InternalReliability::Unreliable,
            InternalOrdering::Sequenced { sequencing_index, ordering_index, ordering_channel_index },
        ) => {
            let a = u24_le_bytes(sequencing_index@ as u32);
            let b = u24_le_bytes(ordering_index@ as u32);
            assert(spec_order_bytes(reliability, ordering) + rest =~= a + (b + (seq![ordering_channel_index] + rest)));
            lemma_read_u24(sequencing_index, b + (seq![ordering_channel_index] + rest));
            lemma_read_u24(ordering_index, seq![ordering_channel_index] + rest);
            lemma_read_u8(ordering_channel_index, rest);
        },
        (InternalReliability::Reliable(Some(n)), InternalOrdering::Unordered) => {
            let a = u24_le_bytes(n@ as u32);
            assert(spec_order_bytes(reliability, ordering) + rest =~= a + rest);
            lemma_read_u24(n, rest);
        },
        (
            InternalReliability::Reliable(Some(n)),
            InternalOrdering::Ordered { ordering_index, ordering_channel_index },
        ) => {
            let a = u24_le_bytes(n@ as u32);
            let b = u24_le_bytes(ordering_index@ as u32);
            assert(spec_order_bytes(reliability, ordering) + rest =~= a + (b + (seq![ordering_channel_index] + rest)));
            lemma_read_u24(n, b + (seq![ordering_channel_index] + rest));
            lemma_read_u24(ordering_index, seq![ordering_channel_index] + rest);
            lemma_read_u8(ordering_channel_index, rest);
        },
        (
            InternalReliability::Reliable(Some(n)),
            InternalOrdering::Sequenced { sequencing_index, ordering_index, ordering_channel_index },
        ) => {
            let a = u24_le_bytes(n@ as u32);
            let b = u24_le_bytes(sequencing_index@ as u32);
            let c = u24_le_bytes(ordering_index@ as u32);
            assert(spec_order_bytes(reliability, ordering) + rest =~= a + (b + (c + (seq![ordering_channel_index] + rest))));
            lemma_read_u24(n, b + (c + (seq![ordering_channel_index] + rest)));
            lemma_read_u24(sequencing_index, c + (seq![ordering_channel_index] + rest));
            lemma_read_u24(ordering_index, seq![ordering_channel_index] + rest);
            lemma_read_u8(ordering_channel_index, rest);
        },
        _ => {},
    }
}

/// What one writes one reads back: reading the encoding of a writable
/// packet with a non-empty payload, followed by any bytes, yields that
/// packet's reliability, ordering, split packet header and payload, and
/// leaves exactly the following bytes.
#[verifier::spinoff_prover]
#[verifier::rlimit(40)]
pub proof fn lemma_packet_roundtrip(
    reliability: InternalReliability,
    ordering: InternalOrdering,
    split: Option<SplitPacketHeader>,
    payload: Seq<u8>,
    rest: Seq<u8>,
)
    requires
        spec_writable(reliability, ordering, payload.len()),
        payload.len() > 0,
    ensures
        spec_read_packet(spec_packet_bytes(reliability, ordering, split, payload) + rest) == Ok::<
            (InternalReliability, InternalOrdering, Option<SplitPacketHeader>, Seq<u8>, Seq<u8>),
            Error,
        >((reliability, ordering, split, payload, rest)),
{
    let kind = spec_kind(reliability, ordering).unwrap();
    let flags = spec_flags(kind, split is Some);
    let bit_length = (payload.len() * 8) as u16;
    let sb = match split {
        Some(h) => h.spec_bytes(),
        None => Seq::empty(),
    };
    let r4 = payload + rest;
    let r3 = sb + r4;
    let r2 = spec_order_bytes(reliability, ordering) + r3;
    let r1 = u16_be_bytes(bit_length) + r2;
    assert(spec_packet_bytes(reliability, ordering, split, payload) + rest =~= seq![flags] + r1);
    lemma_read_u8(flags, r1);
    lemma_read_u16_be(bit_length, r2);
    assert(spec_payload_len(bit_length) == payload.len());
    assert(kind <= 4);
    assert(kind <= 4 ==> ((kind * 32 + 16) as u8) >> 5u8 == kind && (((kind * 32 + 16) as u8)
        & 0x10u8) != 0) by (bit_vector);
    assert(kind <= 4 ==> ((kind * 32 + 0) as u8) >> 5u8 == kind && (((kind * 32 + 0) as u8)
        & 0x10u8) == 0) by (bit_vector);
    assert(flags >> 5u8 == kind);
    assert(((flags & 0x10u8) != 0) == (split is Some));
    lemma_order_roundtrip(reliability, ordering, r3);
    match split {
        Some(h) => {
            lemma_split_header_roundtrip(h, r4);
        },
        None => {
            assert(r3 =~= r4);
        },
    }
    lemma_read_bytes(payload, rest);
}

/// The reliability, ordering, split packet header and payload of a packet.
pub type PacketFields = (InternalReliability, InternalOrdering, Option<SplitPacketHeader>, Seq<u8>);

/// A packet: reliability, ordering, an optional split packet header, an
/// optional send receipt, the time it was created (in nanoseconds) and its
/// payload.
#[derive(Clone, Debug, PartialEq)]
pub struct InternalPacket {
    creation_time: u64,
    reliability: InternalReliability,
    ordering: InternalOrdering,
    split_packet_header: Option<SplitPacketHeader>,
    receipt: Option<u32>,
    payload: Vec<u8>,
}

impl InternalPacket {
    pub closed spec fn spec_creation_time(&self) -> u64 {
        self.creation_time
    }

    pub closed spec fn spec_reliability(&self) -> InternalReliability {
        self.reliability
    }

    pub closed spec fn spec_ordering(&self) -> InternalOrdering {
        self.ordering
    }

    pub closed spec fn spec_split_packet_header(&self) -> Option<SplitPacketHeader> {
        self.split_packet_header
    }

    pub closed spec fn spec_receipt(&self) -> Option<u32> {
        self.receipt
    }

    pub closed spec fn spec_payload(&self) -> Seq<u8> {
        self.payload@
    }

    /// The reliability, ordering, split packet header and payload.
    pub open spec fn fields(&self) -> PacketFields {
        (self.spec_reliability(), self.spec_ordering(), self.spec_split_packet_header(), self.spec_payload())
    }

    /// The size in bytes of the encoded header of a packet.
    pub open spec fn spec_header_size(
        reliability: InternalReliability,
        ordering: InternalOrdering,
        split: Option<SplitPacketHeader>,
    ) -> nat {
        3 + (if reliability is Reliable {
            3nat
        } else {
            0nat
        }) + (match ordering {
            InternalOrdering::Unordered => 0nat,
            InternalOrdering::Ordered { .. } => 4nat,
            InternalOrdering::Sequenced { .. } => 7nat,
        }) + (if split is Some {
            split_header_size()
        } else {
            0nat
        })
    }

    /// The size in bytes of the encoded packet.
    pub open spec fn spec_size(&self) -> nat {
        InternalPacket::spec_header_size(
            self.spec_reliability(),
            self.spec_ordering(),
            self.spec_split_packet_header(),
        ) + self.spec_payload().len()
    }

    pub fn new(
        creation_time: u64,
        reliability: InternalReliability,
        ordering: InternalOrdering,
        split_packet_header: Option<SplitPacketHeader>,
        receipt: Option<u32>,
        payload: Vec<u8>,
    ) -> (r: InternalPacket)
        ensures
            r.spec_creation_time() == creation_time,
            r.spec_reliability() == reliability,
            r.spec_ordering() == ordering,
            r.spec_split_packet_header() == split_packet_header,
            r.spec_receipt() == receipt,
            r.spec_payload() == payload@,
    {
        InternalPacket {
            creation_time,
            reliability,
            ordering,
            split_packet_header,
            receipt,
            payload,
        }
    }

    /// Reads a packet. Its creation time is set to `creation_time` and it
    /// carries no receipt.
    pub fn read(creation_time: u64, reader: &mut DataReader) -> (r: Result<InternalPacket, Error>)
        ensures
            match spec_read_packet(old(reader)@) {
                Ok((reliability, ordering, split, payload, rest)) => r matches Ok(p) && p.spec_creation_time()
                    == creation_time && p.spec_reliability() == reliability && p.spec_ordering()
                    == ordering && p.spec_split_packet_header() == split && p.spec_receipt() is None
                    && p.spec_payload() == payload && final(reader)@ == rest,
                Err(e) => r == Err::<InternalPacket, Error>(e) && final(reader)@.len() <= old(
                    reader,
                )@.len(),
            },
    {
        let flags = reader.read_u8()?;
        let payload_bit_length = reader.read_u16_be()?;
        let payload_byte_length = payload_bit_length.wrapping_add(8 - 1) / 8;
        if payload_byte_length == 0 {
            return Err(Error::ReadError(ReadError::InvalidHeader));
        }
        let kind = flags >> 5u8;
        let (reliability, ordering) = if kind == 0 {
            (InternalReliability::Unreliable, InternalOrdering::Unordered)
        } else if kind == 1 {
            let sequencing_index = reader.read_u24()?;
            let ordering_index = reader.read_u24()?;
            let ordering_channel_index = reader.read_u8()?;
            (
                InternalReliability::Unreliable,
                InternalOrdering::Sequenced {
                    sequencing_index,
                    ordering_index,
                    ordering_channel_index,
                },
            )
        } else if kind == 2 {
            let reliable_message_number = reader.read_u24()?;
            (InternalReliability::Reliable(Some(reliable_message_number)), InternalOrdering::Unordered)
        } else if kind == 3 {
            let reliable_message_number = reader.read_u24()?;
            let ordering_index = reader.read_u24()?;
            let ordering_channel_index = reader.read_u8()?;
            (
                InternalReliability::Reliable(Some(reliable_message_number)),
                InternalOrdering::Ordered { ordering_index, ordering_channel_index },
            )
        } else if kind == 4 {
            let reliable_message_number = reader.read_u24()?;
            let sequencing_index = reader.read_u24()?;
            let ordering_index = reader.read_u24()?;
            let ordering_channel_index = reader.read_u8()?;
            (
                InternalReliability::Reliable(Some(reliable_message_number)),
                InternalOrdering::Sequenced {
                    sequencing_index,
                    ordering_index,
                    ordering_channel_index,
                },
            )
        } else {
            return Err(Error::ReadError(ReadError::InvalidHeader));
        };
        let has_split_packet = (flags & 0x10u8) != 0;
        let split_packet_header = if has_split_packet {
            Some(SplitPacketHeader::read(reader)?)
        } else {
            None
        };
        let payload = reader.read_bytes(payload_byte_length as usize)?;
        Ok(
            InternalPacket {
                creation_time,
                reliability,
                ordering,
                split_packet_header,
                receipt: None,
                payload,
            },
        )
    }
    /// Appends the encoding of the packet.
    ///
    /// Fails without writing anything when the reliability and ordering
    /// combination has no encoding; fails after the flags byte when the
    /// payload is longer than 8191 bytes; fails after the flags and bit
    /// length when a reliable packet has no message number yet.
    #[verifier::spinoff_prover]
    #[verifier::rlimit(30)]
    pub fn write(&self, buf: &mut Vec<u8>) -> (r: Result<(), Error>)
        ensures
            r is Ok <==> spec_writable(
                self.spec_reliability(),
                self.spec_ordering(),
                self.spec_payload().len(),
            ),
            r is Ok ==> final(buf)@ == old(buf)@ + spec_packet_bytes(
                self.spec_reliability(),
                self.spec_ordering(),
                self.spec_split_packet_header(),
                self.spec_payload(),
            ),
            spec_kind(self.spec_reliability(), self.spec_ordering()) is None ==> r == Err::<
                (),
                Error,
            >(Error::WriteError(WriteError::InvalidHeader)) && final(buf)@ == old(buf)@,
            spec_kind(self.spec_reliability(), self.spec_ordering()) matches Some(kind) ==> {
                let flags = spec_flags(kind, self.spec_split_packet_header() is Some);
                &&& self.spec_payload().len() > 8191 ==> r == Err::<(), Error>(
                    Error::WriteError(WriteError::PayloadTooLarge),
                ) && final(buf)@ == old(buf)@.push(flags)
                &&& self.spec_payload().len() <= 8191 && self.spec_reliability()
                    == InternalReliability::Reliable(None) ==> r == Err::<(), Error>(
                    Error::WriteError(WriteError::InvalidHeader),
                ) && final(buf)@ == old(buf)@.push(flags) + u16_be_bytes(
                    (self.spec_payload().len() * 8) as u16,
                )
            },
    {
        let kind: u8 = match (self.reliability, self.ordering) {
            (InternalReliability::Unreliable, InternalOrdering::Unordered) => 0,
            (InternalReliability::Unreliable, InternalOrdering::Sequenced { .. }) => 1,
            (InternalReliability::Reliable(_), InternalOrdering::Unordered) => 2,
            (InternalReliability::Reliable(_), InternalOrdering::Ordered { .. }) => 3,
            (InternalReliability::Reliable(_), InternalOrdering::Sequenced { .. }) => 4,
            _ => return Err(Error::WriteError(WriteError::InvalidHeader)),
        };
        let flags: u8 = kind * 32 + if self.split_packet_header.is_some() {
            16u8
        } else {
            0u8
        };
        write_u8(buf, flags);
        let ghost after_flags = buf@;
        if self.payload.len() > 8191 {
            return Err(Error::WriteError(WriteError::PayloadTooLarge));
        }
        write_u16_be(buf, (self.payload.len() * 8) as u16);
        let ghost after_length = buf@;
        match self.reliability {
            InternalReliability::Reliable(Some(n)) => {
                write_u24(buf, n);
            },
            InternalReliability::Reliable(None) => {
                return Err(Error::WriteError(WriteError::InvalidHeader));
            },
            InternalReliability::Unreliable => {},
        }
        match self.ordering {
            InternalOrdering::Sequenced { sequencing_index, ordering_index, ordering_channel_index } => {
                write_u24(buf, sequencing_index);
                write_u24(buf, ordering_index);
                write_u8(buf, ordering_channel_index);
            },
            InternalOrdering::Ordered { ordering_index, ordering_channel_index } => {
                write_u24(buf, ordering_index);
                write_u8(buf, ordering_channel_index);
            },
            InternalOrdering::Unordered => {},
        }
        assert(buf@ =~= after_length + spec_order_bytes(self.reliability, self.ordering));
        let ghost after_order = buf@;
        match self.split_packet_header {
            Some(h) => h.write(buf),
            None => {},
        }
        write_bytes(buf, self.payload.as_slice());
        assert(buf@ =~= old(buf)@ + spec_packet_bytes(
            self.reliability,
            self.ordering,
            self.split_packet_header,
            self.payload@,
        ));
        Ok(())
    }

    pub fn reliability(&self) -> (r: InternalReliability)
        ensures
            r == self.spec_reliability(),
    {
        self.reliability
    }

    /// The packet with its reliability replaced.
    pub closed spec fn with_reliability(self, reliability: InternalReliability) -> InternalPacket {
        InternalPacket { reliability, ..self }
    }

    /// Replacing the reliability keeps every other part of the packet.
    pub proof fn lemma_with_reliability(self, reliability: InternalReliability)
        ensures
            self.with_reliability(reliability).spec_reliability() == reliability,
            self.with_reliability(reliability).spec_ordering() == self.spec_ordering(),
            self.with_reliability(reliability).spec_split_packet_header() == self.spec_split_packet_header(),
            self.with_reliability(reliability).spec_receipt() == self.spec_receipt(),
            self.with_reliability(reliability).spec_creation_time() == self.spec_creation_time(),
            self.with_reliability(reliability).spec_payload() == self.spec_payload(),
    {
    }

    pub fn set_reliability(&mut self, reliability: InternalReliability)
        ensures
            *final(self) == old(self).with_reliability(reliability),
            final(self).spec_reliability() == reliability,
            final(self).spec_ordering() == old(self).spec_ordering(),
            final(self).spec_split_packet_header() == old(self).spec_split_packet_header(),
            final(self).spec_receipt() == old(self).spec_receipt(),
            final(self).spec_creation_time() == old(self).spec_creation_time(),
            final(self).spec_payload() == old(self).spec_payload(),
    {
        self.reliability = reliability;
    }

    pub fn ordering(&self) -> (r: InternalOrdering)
        ensures
            r == self.spec_ordering(),
    {
        self.ordering
    }

    pub fn split_packet_header(&self) -> (r: Option<SplitPacketHeader>)
        ensures
            r == self.spec_split_packet_header(),
    {
        self.split_packet_header
    }

    pub fn receipt(&self) -> (r: Option<u32>)
        ensures
            r == self.spec_receipt(),
    {
        self.receipt
    }

    pub fn creation_time(&self) -> (r: u64)
        ensures
            r == self.spec_creation_time(),
    {
        self.creation_time
    }

    pub fn payload(&self) -> (r: &[u8])
        ensures
            r@ == self.spec_payload(),
    {
        self.payload.as_slice()
    }

    pub fn into_payload(self) -> (r: Vec<u8>)
        ensures
            r@ == self.spec_payload(),
    {
        self.payload
    }

    /// The number of bytes the encoded packet takes.
    pub fn get_size_in_bytes(&self) -> (r: u16)
        requires
            self.spec_size() <= u16::MAX,
        ensures
            r == self.spec_size(),
    {
        self.get_header_size_in_bytes() + self.payload.len() as u16
    }

    /// The number of bytes the encoded header takes.
    fn get_header_size_in_bytes(&self) -> (r: u16)
        ensures
            r == InternalPacket::spec_header_size(
                self.reliability,
                self.ordering,
                self.split_packet_header,
            ),
    {
        // Bitflags (u8) + Data bit length (u16)
        let mut header_size: u16 = 1 + 2;
        if let InternalReliability::Reliable(_) = self.reliability {
            // Reliable message number (u24)
            header_size = header_size + 3;
        }
        header_size = header_size + match self.ordering {
            InternalOrdering::Unordered => 0,
            InternalOrdering::Ordered { .. } => 3 + 1,
            InternalOrdering::Sequenced { .. } => 3 + 3 + 1,
        };
        if self.split_packet_header.is_some() {
            // Split packet count (u32) + split packet ID (u16) + split packet index (u32)
            header_size = header_size + 4 + 2 + 4;
        }
        header_size
    }
}

} // verus!
