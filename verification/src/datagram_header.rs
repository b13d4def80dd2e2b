//! The first bytes of every connected datagram: whether it carries
//! acknowledgements, negative acknowledgements or packets.

use vstd::prelude::*;

use crate::codec::{lemma_u24_bytes_roundtrip, u24_le_bytes, u32_be_bytes};
use crate::error::{Error, ReadError};
use crate::number::{lemma_u24_bound, DatagramSequenceNumber};
use crate::reader::{
    lemma_read_u24, lemma_read_u32_be, lemma_read_u8, spec_u24, spec_u32_be, spec_u8, DataReader,
};
use crate::writer::{write_f32_be, write_u24, write_u8};

verus! {

/// A datagram header. The data arrival rate of an ACK is an IEEE 754
/// single-precision number, held as its bit pattern.
#[derive(Clone, Copy, Debug, PartialEq, Eq, Structural)]
pub enum DatagramHeader {
    /// The datagram acknowledges datagrams.
    Ack { data_arrival_rate: Option<u32> },
    /// The datagram reports missing datagrams.
    Nack,
    /// The datagram carries packets.
    Packet {
        is_packet_pair: bool,
        is_continuous_send: bool,
        needs_data_arrival_rate: bool,
        datagram_number: DatagramSequenceNumber,
    },
}

/// The flags byte of a header: bit 7 marks a valid header, bit 6 an ACK,
/// bit 5 an ACK with data arrival rate or a NACK, bits 4 to 2 the flags
/// of a packet datagram.
pub open spec fn header_flags(h: DatagramHeader) -> u8 {
    match h {
        DatagramHeader::Ack { data_arrival_rate } => if data_arrival_rate is Some {
            0xE0
        } else {
            0xC0
        },
        DatagramHeader::Nack => 0xA0,
        DatagramHeader::Packet { is_packet_pair, is_continuous_send, needs_data_arrival_rate, .. } => (
        0x80 + (if is_packet_pair {
            0x10int
        } else {
            0
        }) + (if is_continuous_send {
            0x08int
        } else {
            0
        }) + (if needs_data_arrival_rate {
            0x04int
        } else {
            0
        })) as u8,
    }
}

/// The encoding of a header: the flags byte, then the big-endian data
/// arrival rate of an ACK that has one, or the little-endian datagram
/// number of a packet datagram.
pub open spec fn header_bytes(h: DatagramHeader) -> Seq<u8> {
    seq![header_flags(h)] + match h {
        DatagramHeader::Ack { data_arrival_rate } => match data_arrival_rate {
            Some(bits) => u32_be_bytes(bits),
            None => Seq::empty(),
        },
        DatagramHeader::Nack => Seq::empty(),
        DatagramHeader::Packet { datagram_number, .. } => u24_le_bytes(datagram_number@ as u32),
    }
}

/// Reading a header from `s`: the header and what is left, or the error.
pub open spec fn spec_read_header(s: Seq<u8>) -> Result<(DatagramHeader, Seq<u8>), Error> {
    match spec_u8(s) {
        Err(e) => Err(e),
        Ok((flags, s1)) => if flags & 0x80 == 0 {
            Err(Error::ReadError(ReadError::InvalidHeader))
        } else if flags & 0x40 != 0 {
            if flags & 0x20 != 0 {
                match spec_u32_be(s1) {
                    Err(e) => Err(e),
                    Ok((bits, s2)) => Ok((DatagramHeader::Ack { data_arrival_rate: Some(bits) }, s2)),
                }
            } else {
                Ok((DatagramHeader::Ack { data_arrival_rate: None }, s1))
            }
        } else if flags & 0x20 != 0 {
            Ok((DatagramHeader::Nack, s1))
        } else {
            match spec_u24(s1) {
                Err(e) => Err(e),
                Ok((n, s2)) => Ok(
                    (
                        DatagramHeader::Packet {
                            is_packet_pair: flags & 0x10 != 0,
                            is_continuous_send: flags & 0x08 != 0,
                            needs_data_arrival_rate: flags & 0x04 != 0,
                            datagram_number: n,
                        },
                        s2,
                    ),
                ),
            }
        },
    }
}

/// Reading a header from its encoding followed by `rest` gives the header
/// and `rest` back.
pub proof fn lemma_header_roundtrip(h: DatagramHeader, rest: Seq<u8>)
    ensures
        spec_read_header(header_bytes(h) + rest) == Ok::<(DatagramHeader, Seq<u8>), Error>((h, rest)),
{
    let f = header_flags(h);
    let s = header_bytes(h) + rest;
    let body = s.skip(1);
    lemma_read_u8(f, body);
    assert(s =~= seq![f] + body);
    match h {
        DatagramHeader::Ack { data_arrival_rate } => {
            assert(0xE0u8 & 0x80 != 0 && 0xE0u8 & 0x40 != 0 && 0xE0u8 & 0x20 != 0) by (bit_vector);
            assert(0xC0u8 & 0x80 != 0 && 0xC0u8 & 0x40 != 0 && 0xC0u8 & 0x20 == 0) by (bit_vector);
            match data_arrival_rate {
                Some(bits) => {
                    assert(body =~= u32_be_bytes(bits) + rest);
                    lemma_read_u32_be(bits, rest);
                },
                None => {
                    assert(body =~= rest);
                },
            }
        },
        DatagramHeader::Nack => {
            assert(0xA0u8 & 0x80 != 0 && 0xA0u8 & 0x40 == 0 && 0xA0u8 & 0x20 != 0) by (bit_vector);
            assert(body =~= rest);
        },
        DatagramHeader::Packet {
            is_packet_pair,
            is_continuous_send,
            needs_data_arrival_rate,
            datagram_number,
        } => {
            let (a, b, c) = (is_packet_pair, is_continuous_send, needs_data_arrival_rate);
            assert(f == ((0x80u8 | (if a { 0x10u8 } else { 0 })) | (if b { 0x08u8 } else { 0 })) | (
            if c { 0x04u8 } else { 0 })) by {
                assert((0x80u8 | (if a { 0x10u8 } else { 0 })) == 0x80 + (if a { 0x10int } else { 0 }))
                    by (bit_vector);
                assert(((0x80u8 | (if a { 0x10u8 } else { 0 })) | (if b { 0x08u8 } else { 0 })) == 0x80
                    + (if a { 0x10int } else { 0 }) + (if b { 0x08int } else { 0 })) by (bit_vector);
                assert((((0x80u8 | (if a { 0x10u8 } else { 0 })) | (if b { 0x08u8 } else { 0 })) | (
                if c { 0x04u8 } else { 0 })) == 0x80 + (if a { 0x10int } else { 0 }) + (if b {
                    0x08int
                } else {
                    0
                }) + (if c { 0x04int } else { 0 })) by (bit_vector);
            }
            assert({
                let g = ((0x80u8 | (if a { 0x10u8 } else { 0 })) | (if b { 0x08u8 } else { 0 })) | (
                if c { 0x04u8 } else { 0 });
                &&& g & 0x80 != 0
                &&& g & 0x40 == 0
                &&& g & 0x20 == 0
                &&& (g & 0x10 != 0) == a
                &&& (g & 0x08 != 0) == b
                &&& (g & 0x04 != 0) == c
            }) by (bit_vector);
            assert(body =~= u24_le_bytes(datagram_number@ as u32) + rest);
            lemma_read_u24(datagram_number, rest);
        },
    }
}

impl DatagramHeader {
    /// Reads a header.
    pub fn read(reader: &mut DataReader) -> (r: Result<DatagramHeader, Error>)
        ensures
            match spec_read_header(old(reader)@) {
                Ok((h, rest)) => r == Ok::<DatagramHeader, Error>(h) && final(reader)@ == rest,
                Err(e) => r == Err::<DatagramHeader, Error>(e),
            },
    {
        let bitflags = reader.read_u8()?;
        let is_valid = (bitflags & 0x80) != 0;
        if !is_valid {
            return Err(Error::ReadError(ReadError::InvalidHeader));
        }
        let is_ack = (bitflags & 0x40) != 0;
        if is_ack {
            let has_data_arrival_rate = (bitflags & 0x20) != 0;
            let data_arrival_rate = if has_data_arrival_rate {
                Some(reader.read_f32_be()?)
            } else {
                None
            };
            Ok(DatagramHeader::Ack { data_arrival_rate })
        } else {
            let is_nack = (bitflags & 0x20) != 0;
            if is_nack {
                Ok(DatagramHeader::Nack)
            } else {
                let is_packet_pair = (bitflags & 0x10) != 0;
                let is_continuous_send = (bitflags & 0x08) != 0;
                let needs_data_arrival_rate = (bitflags & 0x04) != 0;
                let datagram_number = reader.read_u24()?;
                Ok(
                    DatagramHeader::Packet {
                        is_packet_pair,
                        is_continuous_send,
                        needs_data_arrival_rate,
                        datagram_number,
                    },
                )
            }
        }
    }

    /// Appends the encoding of the header.
    pub fn write(&self, buf: &mut Vec<u8>) -> (r: Result<(), Error>)
        ensures
            r is Ok,
            final(buf)@ == old(buf)@ + header_bytes(*self),
    {
        match self {
            DatagramHeader::Ack { data_arrival_rate } => {
                match data_arrival_rate {
                    Some(bits) => {
                        write_u8(buf, 0xE0);
                        write_f32_be(buf, *bits);
                    },
                    None => {
                        write_u8(buf, 0xC0);
                    },
                }
            },
            DatagramHeader::Nack => {
                write_u8(buf, 0xA0);
            },
            DatagramHeader::Packet {
                is_packet_pair,
                is_continuous_send,
                needs_data_arrival_rate,
                datagram_number,
            } => {
                // Bit 7 = "isValid"
                let mut bitflags: u8 = 0x80;
                if *is_packet_pair {
                    bitflags = bitflags + 0x10;
                }
                if *is_continuous_send {
                    bitflags = bitflags + 0x08;
                }
                if *needs_data_arrival_rate {
                    bitflags = bitflags + 0x04;
                }
                write_u8(buf, bitflags);
                write_u24(buf, *datagram_number);
            },
        }
        assert(final(buf)@ =~= old(buf)@ + header_bytes(*self));
        Ok(())
    }
}

} // verus!
