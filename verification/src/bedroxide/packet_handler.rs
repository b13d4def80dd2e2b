//! The handler of the RakNet packets that carry Bedrock packets: a
//! RakNet packet `0xFE` holds DEFLATE-compressed Bedrock packets, each
//! prefixed with its length as a VarInt.

use vstd::prelude::*;

use crate::address::SocketAddress;
use crate::bedroxide::error::Error;
use crate::bedroxide::reader::{end_of_data_message, spec_varint, BedrockReader, VarIntError};
use crate::codec::{u32_be_value, u32_le_value};
use vstd::utf8::valid_utf8;

verus! {

/// What `flate2::read::DeflateDecoder` gives when `data` is read through it
/// to the end: the decompressed bytes, or `None` when reading fails.
pub uninterp spec fn deflate_decoded(data: Seq<u8>) -> Option<Seq<u8>>;

/// Reads `data` to the end through `flate2::read::DeflateDecoder` (raw
/// DEFLATE, no header). The contract claims that the bytes read are
/// `deflate_decoded(data)`, and that reading fails, with the description
/// of the decoder's I/O error, exactly when that is `None`: decompression
/// depends on the compressed bytes alone. Nothing is claimed about the
/// text of the description.
#[verifier::external_body]
fn inflate(data: &[u8]) -> (r: Result<Vec<u8>, String>)
    ensures
        match r {
            Ok(v) => deflate_decoded(data@) == Some(v@),
            Err(_) => deflate_decoded(data@) is None,
        },
{
    let mut decoder = flate2::read::DeflateDecoder::new(data);
    let mut buf = Vec::new();
    match std::io::Read::read_to_end(&mut decoder, &mut buf) {
        Ok(_) => Ok(buf),
        Err(e) => Err(e.to_string()),
    }
}

/// Calls `std::str::from_utf8` and tells whether it succeeded; the
/// contract claims that it succeeds exactly on well-formed UTF-8, as
/// vstd's `valid_utf8` states it.
#[verifier::external_body]
fn utf8_valid(bytes: &[u8]) -> (r: bool)
    ensures
        r == valid_utf8(bytes@),
{
    std::str::from_utf8(bytes).is_ok()
}

/// How handling a Bedrock packet can fail.
#[derive(Clone, Copy, Debug, PartialEq, Eq, Structural)]
pub enum Failure {
    /// The bytes ran out (the I/O error of reading past the end).
    EndOfData,
    /// A VarInt took more than 32 bits.
    VarIntTooLarge,
    /// Fewer bytes were left than a length asked for.
    NotAllBytesRead,
    /// Text was not UTF-8.
    NotUtf8,
    /// The RakNet packet was empty.
    EmptyPacket,
    /// The RakNet packet did not start with `0xFE`; holds its first byte.
    InvalidMessageId(u8),
    /// The game packets did not decompress.
    Decompression,
}

/// The error that reports the failure.
pub open spec fn reports(e: Error, f: Failure) -> bool {
    match f {
        Failure::EndOfData => e matches Error::IoError(m) && m@ == end_of_data_message(),
        Failure::VarIntTooLarge => e is VarIntTooLarge,
        Failure::NotAllBytesRead => e is NotAllBytesRead,
        Failure::NotUtf8 => e is Utf8Error,
        Failure::EmptyPacket => e is EmptyPacket,
        Failure::InvalidMessageId(b) => e matches Error::InvalidMessageId(x) && x == b,
        Failure::Decompression => e is IoError,
    }
}

/// A VarInt read from `s`, with its failures as handling failures.
pub open spec fn varint(s: Seq<u8>) -> Result<(u32, Seq<u8>), Failure> {
    match spec_varint(s, 0, 0) {
        Ok(r) => Ok(r),
        Err(VarIntError::TooLarge) => Err(Failure::VarIntTooLarge),
        Err(VarIntError::EndOfData) => Err(Failure::EndOfData),
    }
}

/// A big-endian `u32` read from `s`.
pub open spec fn u32_be(s: Seq<u8>) -> Result<(u32, Seq<u8>), Failure> {
    if s.len() >= 4 {
        Ok((u32_be_value(s.take(4)), s.skip(4)))
    } else {
        Err(Failure::EndOfData)
    }
}

/// A little-endian `u32` read from `s`.
pub open spec fn u32_le(s: Seq<u8>) -> Result<(u32, Seq<u8>), Failure> {
    if s.len() >= 4 {
        Ok((u32_le_value(s.take(4)), s.skip(4)))
    } else {
        Err(Failure::EndOfData)
    }
}

/// `n` bytes read from `s`.
pub open spec fn bytes(s: Seq<u8>, n: nat) -> Result<(Seq<u8>, Seq<u8>), Failure> {
    if n <= s.len() {
        Ok((s.take(n as int), s.skip(n as int)))
    } else {
        Err(Failure::NotAllBytesRead)
    }
}

/// `n` bytes of UTF-8 text read from `s`.
pub open spec fn text(s: Seq<u8>, n: nat) -> Result<(Seq<u8>, Seq<u8>), Failure> {
    match bytes(s, n) {
        Err(f) => Err(f),
        Ok((t, rest)) => if valid_utf8(t) {
            Ok((t, rest))
        } else {
            Err(Failure::NotUtf8)
        },
    }
}

/// A Bedrock packet: its ID and, for a login packet (ID 1), the protocol
/// version, the payload length, the certificate chain and the skin data.
pub type PacketView = (u32, Option<(u32, u32, Seq<u8>, Seq<u8>)>);

/// Reading the login packet that follows the ID: protocol version
/// (big-endian), payload length (VarInt), then the certificate chain and
/// the skin data, each UTF-8 text after its little-endian length.
pub open spec fn spec_login(s: Seq<u8>) -> Result<(u32, u32, Seq<u8>, Seq<u8>), Failure> {
    match u32_be(s) {
        Err(f) => Err(f),
        Ok((protocol_version, s1)) => match varint(s1) {
            Err(f) => Err(f),
            Ok((payload_length, s2)) => match u32_le(s2) {
                Err(f) => Err(f),
                Ok((cert_chain_length, s3)) => match text(s3, cert_chain_length as nat) {
                    Err(f) => Err(f),
                    Ok((cert_chain, s4)) => match u32_le(s4) {
                        Err(f) => Err(f),
                        Ok((skin_length, s5)) => match text(s5, skin_length as nat) {
                            Err(f) => Err(f),
                            Ok((skin, _)) => Ok((protocol_version, payload_length, cert_chain, skin)),
                        },
                    },
                },
            },
        },
    }
}

/// Reading the Bedrock packet `payload`: its ID (VarInt) and, for a login
/// packet, the login fields.
pub open spec fn spec_bedrock_packet(payload: Seq<u8>) -> Result<PacketView, Failure> {
    match varint(payload) {
        Err(f) => Err(f),
        Ok((id, rest)) => if id == 1 {
            match spec_login(rest) {
                Err(f) => Err(f),
                Ok(login) => Ok((id, Some(login))),
            }
        } else {
            Ok((id, None))
        },
    }
}

/// Reading a VarInt consumes at least one byte.
proof fn lemma_varint_shrinks(s: Seq<u8>, acc: u32, bits: u32)
    ensures
        spec_varint(s, acc, bits) matches Ok((_, rest)) ==> rest.len() < s.len(),
    decreases s.len(),
{
    if s.len() > 0 && bits < 28 && s[0] & 0x80 != 0 {
        let value = acc | (((s[0] & 0x7f) as u32) << bits);
        lemma_varint_shrinks(s.drop_first(), value, (bits + 7) as u32);
    }
}

/// The Bedrock packets in `s`, each after its length, read while more
/// than one byte is left, and the failure that stopped reading, if any.
pub open spec fn spec_packets(s: Seq<u8>) -> (Seq<PacketView>, Option<Failure>)
    decreases s.len(),
    via spec_packets_decreases
{
    if s.len() <= 1 {
        (Seq::empty(), None)
    } else {
        match varint(s) {
            Err(f) => (Seq::empty(), Some(f)),
            Ok((length, s1)) => match bytes(s1, length as nat) {
                Err(f) => (Seq::empty(), Some(f)),
                Ok((payload, s2)) => match spec_bedrock_packet(payload) {
                    Err(f) => (Seq::empty(), Some(f)),
                    Ok(p) => {
                        let (ps, f) = spec_packets(s2);
                        (seq![p] + ps, f)
                    },
                },
            },
        }
    }
}

#[via_fn]
proof fn spec_packets_decreases(s: Seq<u8>) {
    lemma_varint_shrinks(s, 0, 0);
}

/// Handling the decompressed bytes `buf` of a RakNet game packet: the
/// Bedrock packets in it and the failure that stopped reading them, if
/// any. Empty bytes fail at the end of the data, as reading the first
/// length does.
pub open spec fn spec_decompressed(buf: Seq<u8>) -> (Seq<PacketView>, Option<Failure>) {
    if buf.len() == 0 {
        (Seq::empty(), Some(Failure::EndOfData))
    } else {
        spec_packets(buf)
    }
}

/// Handling the RakNet packet `payload`: the Bedrock packets it carries
/// and the failure that stopped reading them, if any. An empty packet, a
/// packet that does not start with `0xFE` and one that does not
/// decompress carry none and fail; a packet that decompresses to nothing
/// fails at the end of the data, as reading its first length does.
pub open spec fn spec_raknet_packet(payload: Seq<u8>) -> (Seq<PacketView>, Option<Failure>) {
    if payload.len() == 0 {
        (Seq::empty(), Some(Failure::EmptyPacket))
    } else if payload[0] != 0xfe {
        (Seq::empty(), Some(Failure::InvalidMessageId(payload[0])))
    } else {
        match deflate_decoded(payload.drop_first()) {
            None => (Seq::empty(), Some(Failure::Decompression)),
            Some(buf) => spec_decompressed(buf),
        }
    }
}

/// A Bedrock packet.
#[derive(Debug)]
pub enum BedrockPacket {
    /// A login packet.
    Login {
        protocol_version: u32,
        payload_length: u32,
        cert_chain: Vec<u8>,
        skin_data: Vec<u8>,
    },
    /// A packet with another ID, which is not handled.
    Unknown { id: u32 },
}

impl View for BedrockPacket {
    type V = PacketView;

    open spec fn view(&self) -> PacketView {
        match self {
            BedrockPacket::Login { protocol_version, payload_length, cert_chain, skin_data } => (
                1,
                Some((*protocol_version, *payload_length, cert_chain@, skin_data@)),
            ),
            BedrockPacket::Unknown { id } => (*id, None),
        }
    }
}

/// The views of the packets.
pub open spec fn packet_views(v: Seq<BedrockPacket>) -> Seq<PacketView> {
    v.map_values(|p: BedrockPacket| p@)
}

/// Handles the RakNet packets that carry Bedrock packets.
pub struct BedrockPacketHandler {}

impl BedrockPacketHandler {
    /// A handler.
    pub fn new() -> (r: BedrockPacketHandler) {
        BedrockPacketHandler {  }
    }

    /// Handles a RakNet packet from `addr` and `guid`: returns the Bedrock
    /// packets it carries, in order, and the error that stopped reading
    /// them, if any (see `spec_raknet_packet`).
    pub fn handle_raknet_packet(&mut self, addr: SocketAddress, guid: u64, payload: &[u8]) -> (r: (
        Vec<BedrockPacket>,
        Option<Error>,
    ))
        ensures
            ({
                let (ps, f) = spec_raknet_packet(payload@);
                &&& packet_views(r.0@) == ps
                &&& match f {
                    None => r.1 is None,
                    Some(f) => r.1 matches Some(e) && reports(e, f),
                }
            }),
    {
        let mut packets: Vec<BedrockPacket> = Vec::new();
        assert(packet_views(packets@) =~= Seq::<PacketView>::empty());
        if payload.len() == 0 {
            return (packets, Some(Error::EmptyPacket));
        }
        if payload[0] != 0xfe {
            return (packets, Some(Error::InvalidMessageId(payload[0])));
        }
        let compressed = &payload[1..payload.len()];
        assert(compressed@ =~= payload@.drop_first());
        let buf = match inflate(compressed) {
            Ok(buf) => buf,
            Err(description) => {
                return (packets, Some(Error::IoError(description)));
            },
        };
        self.handle_bedrock_packets(buf.as_slice())
    }

    /// Handles the decompressed bytes `buf` of a RakNet game packet:
    /// returns the Bedrock packets in it, in order, and the error that
    /// stopped reading them, if any (see `spec_decompressed`).
    pub fn handle_bedrock_packets(&mut self, buf: &[u8]) -> (r: (Vec<BedrockPacket>, Option<Error>))
        ensures
            ({
                let (ps, f) = spec_decompressed(buf@);
                &&& packet_views(r.0@) == ps
                &&& match f {
                    None => r.1 is None,
                    Some(f) => r.1 matches Some(e) && reports(e, f),
                }
            }),
    {
        let mut packets: Vec<BedrockPacket> = Vec::new();
        assert(packet_views(packets@) =~= Seq::<PacketView>::empty());
        if buf.len() == 0 {
            return (packets, Some(BedrockReader::end_of_data()));
        }
        let mut reader = BedrockReader::new(buf);
        let ghost all = spec_packets(buf@);
        while reader.has_more()
            invariant
                reader.spec_data() == buf@,
                reader.spec_data().len() > 0,
                all == spec_packets(buf@),
                all == ({
                    let (ps, f) = spec_packets(reader@);
                    (packet_views(packets@) + ps, f)
                }),
            decreases reader@.len(),
        {
            let ghost before = reader@;
            proof {
                lemma_varint_shrinks(before, 0, 0);
            }
            match self.read_and_handle_bedrock_packet(&mut reader) {
                Ok(packet) => {
                    let ghost v = packet@;
                    let ghost old_views = packet_views(packets@);
                    packets.push(packet);
                    assert(packet_views(packets@) =~= old_views.push(v));
                    assert(old_views + (seq![v] + spec_packets(reader@).0) =~= old_views.push(v)
                        + spec_packets(reader@).0);
                },
                Err(e) => {
                    assert(spec_packets(before).0 =~= Seq::<PacketView>::empty());
                    assert(packet_views(packets@) + spec_packets(before).0 =~= packet_views(packets@));
                    proof {
                        match varint(before) {
                            Err(f) => {
                                assert(spec_packets(before).1 == Some(f));
                            },
                            Ok((length, s1)) => match bytes(s1, length as nat) {
                                Err(f) => {
                                    assert(spec_packets(before).1 == Some(f));
                                },
                                Ok((q, s2)) => match spec_bedrock_packet(q) {
                                    Err(f) => {
                                        assert(spec_packets(before).1 == Some(f));
                                    },
                                    Ok(_) => {},
                                },
                            },
                        }
                    }
                    return (packets, Some(e));
                },
            }
        }
        assert(packet_views(packets@) + Seq::<PacketView>::empty() =~= packet_views(packets@));
        (packets, None)
    }

    /// Reads the length of the next Bedrock packet and the packet, and
    /// handles it.
    fn read_and_handle_bedrock_packet(&mut self, reader: &mut BedrockReader) -> (r: Result<
        BedrockPacket,
        Error,
    >)
        requires
            old(reader)@.len() > 1,
        ensures
            final(reader).spec_data() == old(reader).spec_data(),
            match varint(old(reader)@) {
                Err(f) => r matches Err(e) && reports(e, f),
                Ok((length, s1)) => match bytes(s1, length as nat) {
                    Err(f) => r matches Err(e) && reports(e, f),
                    Ok((payload, s2)) => match spec_bedrock_packet(payload) {
                        Err(f) => r matches Err(e) && reports(e, f),
                        Ok(p) => r matches Ok(q) && q@ == p && final(reader)@ == s2,
                    },
                },
            },
    {
        let length = reader.read_varint_to_u32()?;
        let payload = reader.read_bytes_as_slice(length as usize)?;
        self.handle_bedrock_packet(payload)
    }

    /// Handles a Bedrock packet: reads its ID and, for a login packet, the
    /// login fields.
    fn handle_bedrock_packet(&mut self, payload: &[u8]) -> (r: Result<BedrockPacket, Error>)
        ensures
            match spec_bedrock_packet(payload@) {
                Err(f) => r matches Err(e) && reports(e, f),
                Ok(p) => r matches Ok(q) && q@ == p,
            },
    {
        let mut reader = BedrockReader::new(payload);
        let id = reader.read_varint_to_u32()?;
        if id == 0x01 {
            self.handle_login_packet(&mut reader)
        } else {
            Ok(BedrockPacket::Unknown { id })
        }
    }

    /// Reads the fields of a login packet. The certificate chain and the
    /// skin data are not parsed further.
    fn handle_login_packet(&mut self, reader: &mut BedrockReader) -> (r: Result<BedrockPacket, Error>)
        ensures
            match spec_login(old(reader)@) {
                Err(f) => r matches Err(e) && reports(e, f),
                Ok(login) => r matches Ok(q) && q@ == (1u32, Some(login)),
            },
    {
        let protocol_version = reader.read_u32_be()?;
        let payload_length = reader.read_varint_to_u32()?;
        let cert_chain_length = reader.read_u32_le()?;
        let cert_chain = reader.read_bytes_as_slice(cert_chain_length as usize)?;
        if !utf8_valid(cert_chain) {
            return Err(Error::Utf8Error);
        }
        let skin_data_length = reader.read_u32_le()?;
        let skin_data = reader.read_bytes_as_slice(skin_data_length as usize)?;
        if !utf8_valid(skin_data) {
            return Err(Error::Utf8Error);
        }
        let mut cert: Vec<u8> = Vec::new();
        crate::writer::write_bytes(&mut cert, cert_chain);
        let mut skin: Vec<u8> = Vec::new();
        crate::writer::write_bytes(&mut skin, skin_data);
        Ok(
            BedrockPacket::Login {
                protocol_version,
                payload_length,
                cert_chain: cert,
                skin_data: skin,
            },
        )
    }
}

} // verus!
