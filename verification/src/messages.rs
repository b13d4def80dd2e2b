//! The messages exchanged with a peer, and their wire format.
//!
//! Each message has a specification of its encoding (`spec_bytes`) and of
//! how it is read (`spec_read_*`). Reading a message's encoding gives the
//! message back (the `lemma_*_roundtrip` proofs).

use vstd::prelude::*;

use crate::address::{socket_addr_bytes, SocketAddress};
use crate::codec::{u16_be_bytes, u32_be_bytes, u64_be_bytes};
use crate::constants::{MAX_NUMBER_OF_INTERNAL_IDS, OFFLINE_MESSAGE_ID};
use crate::error::{Error, ReadError};
use crate::message_ids::{lemma_message_id_roundtrip, message_id_byte, message_id_of, MessageId};
use crate::reader::{
    lemma_read_bytes, lemma_read_socket_addr, lemma_read_u16_be, lemma_read_u32_be,
    lemma_read_u64_be, lemma_read_u8, short_read, spec_bytes, spec_socket_addr, spec_u16_be,
    spec_u32_be, spec_u64_be, spec_u8, DataReader,
};
use crate::writer::{
    write_bytes, write_socket_addr, write_u16_be, write_u32_be, write_u64_be, write_u8,
    write_zero_padding,
};

verus! {

/// The magic bytes that mark offline messages.
pub open spec fn offline_id() -> Seq<u8> {
    seq![
        0x00u8, 0xFF, 0xFF, 0x00, 0xFE, 0xFE, 0xFE, 0xFE, 0xFD, 0xFD, 0xFD, 0xFD, 0x12, 0x34, 0x56,
        0x78,
    ]
}

/// Reading the message identifier byte `id` from `s`.
pub open spec fn spec_id(s: Seq<u8>, id: u8) -> Result<((), Seq<u8>), Error> {
    match spec_u8(s) {
        Err(e) => Err(e),
        Ok((b, rest)) => if b == id {
            Ok(((), rest))
        } else {
            Err(Error::ReadError(ReadError::CompareFailed))
        },
    }
}

/// Reading the offline message marker from `s`.
pub open spec fn spec_offline_id(s: Seq<u8>) -> Result<((), Seq<u8>), Error> {
    if s.len() < 16 {
        Err(short_read(s))
    } else if s.take(16) == offline_id() {
        Ok(((), s.skip(16)))
    } else {
        Err(Error::ReadError(ReadError::InvalidOfflineMessageId))
    }
}

/// Reading zero padding: the rest of `s`, at most `u16::MAX` bytes.
pub open spec fn spec_padding(s: Seq<u8>) -> Result<(u16, Seq<u8>), Error> {
    if s.len() <= 0xFFFF {
        Ok((s.len() as u16, Seq::empty()))
    } else {
        Err(Error::ReadError(ReadError::TooLongZeroPadding))
    }
}

/// `count` zero bytes.
pub open spec fn zeros(count: nat) -> Seq<u8> {
    Seq::new(count, |i: int| 0u8)
}

/// Reading the message identifier `id` from its byte followed by `rest`.
pub proof fn lemma_read_id(id: u8, rest: Seq<u8>)
    ensures
        spec_id(seq![id] + rest, id) == Ok::<((), Seq<u8>), Error>(((), rest)),
{
    lemma_read_u8(id, rest);
}

/// Reading the offline marker from the marker followed by `rest`.
pub proof fn lemma_read_offline_id(rest: Seq<u8>)
    ensures
        spec_offline_id(offline_id() + rest) == Ok::<((), Seq<u8>), Error>(((), rest)),
{
    assert((offline_id() + rest).take(16) =~= offline_id());
    assert((offline_id() + rest).skip(16) =~= rest);
}

/// Reads the offline message marker.
fn read_offline_message_id(reader: &mut DataReader) -> (r: Result<(), Error>)
    ensures
        match spec_offline_id(old(reader)@) {
            Ok((_, rest)) => r is Ok && final(reader)@ == rest,
            Err(e) => r == Err::<(), Error>(e),
        },
{
    let id = OFFLINE_MESSAGE_ID;
    assert(id@ =~= offline_id());
    match reader.read_bytes_and_compare(id.as_slice()) {
        Ok(()) => Ok(()),
        Err(Error::ReadError(ReadError::CompareFailed)) => Err(
            Error::ReadError(ReadError::InvalidOfflineMessageId),
        ),
        Err(e) => Err(e),
    }
}

/// Appends the offline message marker.
fn write_offline_message_id(buf: &mut Vec<u8>)
    ensures
        final(buf)@ == old(buf)@ + offline_id(),
{
    let id = OFFLINE_MESSAGE_ID;
    assert(id@ =~= offline_id());
    write_bytes(buf, id.as_slice());
}

/// A ping from a peer that is not connected.
#[derive(Clone, Copy, Debug, PartialEq, Eq, Structural)]
pub struct UnconnectedPingMessage {
    pub time: u64,
    pub client_guid: u64,
}

impl UnconnectedPingMessage {
    /// The encoding: identifier, time, offline marker, client GUID.
    pub open spec fn spec_bytes(self) -> Seq<u8> {
        seq![0x01u8] + u64_be_bytes(self.time) + offline_id() + u64_be_bytes(self.client_guid)
    }

    /// Reading the message from `s`.
    pub open spec fn spec_read(s: Seq<u8>) -> Result<(UnconnectedPingMessage, Seq<u8>), Error> {
        match spec_id(s, 0x01) {
            Err(e) => Err(e),
            Ok((_, s1)) => match spec_u64_be(s1) {
                Err(e) => Err(e),
                Ok((time, s2)) => match spec_offline_id(s2) {
                    Err(e) => Err(e),
                    Ok((_, s3)) => match spec_u64_be(s3) {
                        Err(e) => Err(e),
                        Ok((client_guid, s4)) => Ok((UnconnectedPingMessage { time, client_guid }, s4)),
                    },
                },
            },
        }
    }

    /// Reads the message.
    pub fn read_message(reader: &mut DataReader) -> (r: Result<UnconnectedPingMessage, Error>)
        ensures
            match UnconnectedPingMessage::spec_read(old(reader)@) {
                Ok((m, rest)) => r == Ok::<UnconnectedPingMessage, Error>(m) && final(reader)@ == rest,
                Err(e) => r == Err::<UnconnectedPingMessage, Error>(e),
            },
    {
        reader.read_u8_and_compare(0x01)?;
        let time = reader.read_u64_be()?;
        read_offline_message_id(reader)?;
        let client_guid = reader.read_u64_be()?;
        Ok(UnconnectedPingMessage { time, client_guid })
    }

    /// Appends the encoding of the message.
    pub fn write_message(&self, buf: &mut Vec<u8>) -> (r: Result<(), Error>)
        ensures
            r is Ok,
            final(buf)@ == old(buf)@ + self.spec_bytes(),
    {
        write_u8(buf, 0x01);
        write_u64_be(buf, self.time);
        write_offline_message_id(buf);
        write_u64_be(buf, self.client_guid);
        assert(buf@ =~= old(buf)@ + self.spec_bytes());
        Ok(())
    }
}

/// Reading an unconnected ping from its encoding followed by `rest` gives
/// the message and `rest` back.
pub proof fn lemma_unconnected_ping_roundtrip(m: UnconnectedPingMessage, rest: Seq<u8>)
    ensures
        UnconnectedPingMessage::spec_read(m.spec_bytes() + rest) == Ok::<
            (UnconnectedPingMessage, Seq<u8>),
            Error,
        >((m, rest)),
{
    let s = m.spec_bytes() + rest;
    let s1 = u64_be_bytes(m.time) + offline_id() + u64_be_bytes(m.client_guid) + rest;
    assert(s =~= seq![0x01u8] + s1);
    lemma_read_id(0x01, s1);
    let s2 = offline_id() + u64_be_bytes(m.client_guid) + rest;
    assert(s1 =~= u64_be_bytes(m.time) + s2);
    lemma_read_u64_be(m.time, s2);
    let s3 = u64_be_bytes(m.client_guid) + rest;
    assert(s2 =~= offline_id() + s3);
    lemma_read_offline_id(s3);
    lemma_read_u64_be(m.client_guid, rest);
}

/// Copies 64 bytes into an array.
fn to_array_64(v: &Vec<u8>) -> (r: [u8; 64])
    requires
        v@.len() == 64,
    ensures
        r@ == v@,
{
    let mut a = [0u8; 64];
    let mut i: usize = 0;
    while i < 64
        invariant
            i <= 64,
            v@.len() == 64,
            a@.len() == 64,
            forall|j: int| 0 <= j < i ==> a@[j] == v@[j],
        decreases 64 - i,
    {
        a[i] = v[i];
        i = i + 1;
    }
    assert(a@ =~= v@);
    a
}

/// Copies 128 bytes into an array.
fn to_array_128(v: &Vec<u8>) -> (r: [u8; 128])
    requires
        v@.len() == 128,
    ensures
        r@ == v@,
{
    let mut a = [0u8; 128];
    let mut i: usize = 0;
    while i < 128
        invariant
            i <= 128,
            v@.len() == 128,
            a@.len() == 128,
            forall|j: int| 0 <= j < i ==> a@[j] == v@[j],
        decreases 128 - i,
    {
        a[i] = v[i];
        i = i + 1;
    }
    assert(a@ =~= v@);
    a
}

/// A pong answering an unconnected ping, carrying the ping's time and
/// the ping response data.
#[derive(Clone, Debug, PartialEq)]
pub struct UnconnectedPongMessage {
    pub time: u64,
    pub guid: u64,
    pub data: Vec<u8>,
}

impl View for UnconnectedPongMessage {
    type V = (u64, u64, Seq<u8>);

    open spec fn view(&self) -> (u64, u64, Seq<u8>) {
        (self.time, self.guid, self.data@)
    }
}

/// The encoding of an unconnected pong: identifier, time, GUID, offline
/// marker, data.
pub open spec fn unconnected_pong_bytes(m: (u64, u64, Seq<u8>)) -> Seq<u8> {
    seq![0x1Cu8] + u64_be_bytes(m.0) + u64_be_bytes(m.1) + offline_id() + m.2
}

/// Reading an unconnected pong from `s`; the data is the rest of `s`.
pub open spec fn spec_read_unconnected_pong(s: Seq<u8>) -> Result<(u64, u64, Seq<u8>), Error> {
    match spec_id(s, 0x1C) {
        Err(e) => Err(e),
        Ok((_, s1)) => match spec_u64_be(s1) {
            Err(e) => Err(e),
            Ok((time, s2)) => match spec_u64_be(s2) {
                Err(e) => Err(e),
                Ok((guid, s3)) => match spec_offline_id(s3) {
                    Err(e) => Err(e),
                    Ok((_, s4)) => Ok((time, guid, s4)),
                },
            },
        },
    }
}

impl UnconnectedPongMessage {
    /// Reads the message; its data is everything after the marker.
    pub fn read_message(reader: &mut DataReader) -> (r: Result<UnconnectedPongMessage, Error>)
        ensures
            match spec_read_unconnected_pong(old(reader)@) {
                Ok(v) => r matches Ok(m) && m@ == v,
                Err(e) => r == Err::<UnconnectedPongMessage, Error>(e),
            },
    {
        reader.read_u8_and_compare(0x1C)?;
        let time = reader.read_u64_be()?;
        let guid = reader.read_u64_be()?;
        read_offline_message_id(reader)?;
        let data = reader.read_bytes_to_end();
        Ok(UnconnectedPongMessage { time, guid, data })
    }

    /// Appends the encoding of the message.
    pub fn write_message(&self, buf: &mut Vec<u8>) -> (r: Result<(), Error>)
        ensures
            r is Ok,
            final(buf)@ == old(buf)@ + unconnected_pong_bytes(self@),
    {
        write_u8(buf, 0x1C);
        write_u64_be(buf, self.time);
        write_u64_be(buf, self.guid);
        write_offline_message_id(buf);
        write_bytes(buf, self.data.as_slice());
        assert(buf@ =~= old(buf)@ + unconnected_pong_bytes(self@));
        Ok(())
    }
}

/// Reading an unconnected pong from its encoding gives the message back.
#[verifier::spinoff_prover]
#[verifier::rlimit(40)]
pub proof fn lemma_unconnected_pong_roundtrip(m: (u64, u64, Seq<u8>))
    ensures
        spec_read_unconnected_pong(unconnected_pong_bytes(m)) == Ok::<(u64, u64, Seq<u8>), Error>(m),
{
    let s = unconnected_pong_bytes(m);
    let s3 = offline_id() + m.2;
    let s2 = u64_be_bytes(m.1) + s3;
    let s1 = u64_be_bytes(m.0) + s2;
    assert(s =~= seq![0x1Cu8] + s1);
    lemma_read_id(0x1C, s1);
    lemma_read_u64_be(m.0, s2);
    lemma_read_u64_be(m.1, s3);
    lemma_read_offline_id(m.2);
}

/// The first request of a connection handshake. Its padding makes the
/// datagram as large as the MTU the client tries.
#[derive(Clone, Copy, Debug, PartialEq, Eq, Structural)]
pub struct OpenConnectionRequest1Message {
    pub protocol_version: u8,
    pub padding_length: u16,
}

impl OpenConnectionRequest1Message {
    /// The encoding: identifier, offline marker, protocol version, zero
    /// padding.
    pub open spec fn spec_bytes(self) -> Seq<u8> {
        seq![0x05u8] + offline_id() + seq![self.protocol_version] + zeros(
            self.padding_length as nat,
        )
    }

    /// Reading the message from `s`; the padding is the rest of `s`.
    pub open spec fn spec_read(s: Seq<u8>) -> Result<OpenConnectionRequest1Message, Error> {
        match spec_id(s, 0x05) {
            Err(e) => Err(e),
            Ok((_, s1)) => match spec_offline_id(s1) {
                Err(e) => Err(e),
                Ok((_, s2)) => match spec_u8(s2) {
                    Err(e) => Err(e),
                    Ok((protocol_version, s3)) => match spec_padding(s3) {
                        Err(e) => Err(e),
                        Ok((padding_length, _)) => Ok(
                            OpenConnectionRequest1Message { protocol_version, padding_length },
                        ),
                    },
                },
            },
        }
    }

    /// Reads the message.
    pub fn read_message(reader: &mut DataReader) -> (r: Result<OpenConnectionRequest1Message, Error>)
        ensures
            r == OpenConnectionRequest1Message::spec_read(old(reader)@),
    {
        reader.read_u8_and_compare(0x05)?;
        read_offline_message_id(reader)?;
        let protocol_version = reader.read_u8()?;
        let padding_length = reader.read_zero_padding()?;
        Ok(OpenConnectionRequest1Message { protocol_version, padding_length })
    }

    /// Appends the encoding of the message.
    pub fn write_message(&self, buf: &mut Vec<u8>) -> (r: Result<(), Error>)
        ensures
            r is Ok,
            final(buf)@ == old(buf)@ + self.spec_bytes(),
    {
        write_u8(buf, 0x05);
        write_offline_message_id(buf);
        write_u8(buf, self.protocol_version);
        write_zero_padding(buf, self.padding_length);
        assert(buf@ =~= old(buf)@ + self.spec_bytes());
        Ok(())
    }
}

/// Reading an open connection request 1 from its encoding gives the
/// message back.
pub proof fn lemma_open_connection_request_1_roundtrip(m: OpenConnectionRequest1Message)
    ensures
        OpenConnectionRequest1Message::spec_read(m.spec_bytes()) == Ok::<
            OpenConnectionRequest1Message,
            Error,
        >(m),
{
    let pad = zeros(m.padding_length as nat);
    let s2 = seq![m.protocol_version] + pad;
    let s1 = offline_id() + s2;
    assert(m.spec_bytes() =~= seq![0x05u8] + s1);
    lemma_read_id(0x05, s1);
    lemma_read_offline_id(s2);
    lemma_read_u8(m.protocol_version, pad);
}

/// The answer to an open connection request 1: the server's GUID, its
/// security cookie and public key if it uses security, and the MTU.
#[derive(Clone, Copy, Debug, PartialEq)]
pub struct OpenConnectionReply1Message {
    pub guid: u64,
    pub cookie_and_public_key: Option<(u32, [u8; 64])>,
    pub mtu: u16,
}

impl View for OpenConnectionReply1Message {
    type V = (u64, Option<(u32, Seq<u8>)>, u16);

    open spec fn view(&self) -> (u64, Option<(u32, Seq<u8>)>, u16) {
        (
            self.guid,
            match self.cookie_and_public_key {
                Some((c, k)) => Some((c, k@)),
                None => None,
            },
            self.mtu,
        )
    }
}

/// The encoding of an open connection reply 1: identifier, offline
/// marker, GUID, security flag (with cookie and key when set), MTU.
pub open spec fn open_connection_reply_1_bytes(m: (u64, Option<(u32, Seq<u8>)>, u16)) -> Seq<u8> {
    seq![0x06u8] + offline_id() + u64_be_bytes(m.0) + reply_1_security_bytes(m.1) + u16_be_bytes(
        m.2,
    )
}

/// Reading the security flag of an open connection reply 1, and the
/// cookie and public key that follow it when it is set.
pub open spec fn spec_read_reply_1_security(s: Seq<u8>) -> Result<
    (Option<(u32, Seq<u8>)>, Seq<u8>),
    Error,
> {
    match spec_u8(s) {
        Err(e) => Err(e),
        Ok((use_security, s1)) => if use_security == 0x01 {
            match spec_u32_be(s1) {
                Err(e) => Err(e),
                Ok((cookie, s2)) => match spec_bytes(s2, 64) {
                    Err(e) => Err(e),
                    Ok((key, s3)) => Ok((Some((cookie, key)), s3)),
                },
            }
        } else {
            Ok((None, s1))
        },
    }
}

/// Reading an open connection reply 1 from `s`.
pub open spec fn spec_read_open_connection_reply_1(s: Seq<u8>) -> Result<
    ((u64, Option<(u32, Seq<u8>)>, u16), Seq<u8>),
    Error,
> {
    match spec_id(s, 0x06) {
        Err(e) => Err(e),
        Ok((_, s1)) => match spec_offline_id(s1) {
            Err(e) => Err(e),
            Ok((_, s2)) => match spec_u64_be(s2) {
                Err(e) => Err(e),
                Ok((guid, s3)) => match spec_read_reply_1_security(s3) {
                    Err(e) => Err(e),
                    Ok((ck, s4)) => match spec_u16_be(s4) {
                        Err(e) => Err(e),
                        Ok((mtu, s5)) => Ok(((guid, ck, mtu), s5)),
                    },
                },
            },
        },
    }
}

impl OpenConnectionReply1Message {
    /// Reads the security flag, and the cookie and public key if it is set.
    fn read_security(reader: &mut DataReader) -> (r: Result<Option<(u32, [u8; 64])>, Error>)
        ensures
            match spec_read_reply_1_security(old(reader)@) {
                Ok((v, rest)) => r matches Ok(ck) && final(reader)@ == rest && match (ck, v) {
                    (Some((c, k)), Some((c2, k2))) => c == c2 && k@ == k2,
                    (None, None) => true,
                    _ => false,
                },
                Err(e) => r == Err::<Option<(u32, [u8; 64])>, Error>(e),
            },
    {
        let use_security = reader.read_u8()?;
        if use_security == 0x01 {
            let cookie = reader.read_u32_be()?;
            let key = reader.read_bytes(64)?;
            Ok(Some((cookie, to_array_64(&key))))
        } else {
            Ok(None)
        }
    }

    /// Reads the message.
    pub fn read_message(reader: &mut DataReader) -> (r: Result<OpenConnectionReply1Message, Error>)
        ensures
            match spec_read_open_connection_reply_1(old(reader)@) {
                Ok((v, rest)) => r matches Ok(m) && m@ == v && final(reader)@ == rest,
                Err(e) => r == Err::<OpenConnectionReply1Message, Error>(e),
            },
    {
        reader.read_u8_and_compare(0x06)?;
        read_offline_message_id(reader)?;
        let guid = reader.read_u64_be()?;
        let cookie_and_public_key = Self::read_security(reader)?;
        let mtu = reader.read_u16_be()?;
        Ok(OpenConnectionReply1Message { guid, cookie_and_public_key, mtu })
    }

    /// Appends the encoding of the message.
    pub fn write_message(&self, buf: &mut Vec<u8>) -> (r: Result<(), Error>)
        ensures
            r is Ok,
            final(buf)@ == old(buf)@ + open_connection_reply_1_bytes(self@),
    {
        write_u8(buf, 0x06);
        write_offline_message_id(buf);
        write_u64_be(buf, self.guid);
        match self.cookie_and_public_key {
            Some((cookie, public_key)) => {
                write_u8(buf, 0x01);  // Using security = 0x01
                write_u32_be(buf, cookie);
                write_bytes(buf, public_key.as_slice());
            },
            None => {
                write_u8(buf, 0x00);  // Not using security = 0x00
            },
        }
        write_u16_be(buf, self.mtu);
        assert(buf@ =~= old(buf)@ + open_connection_reply_1_bytes(self@));
        Ok(())
    }
}

/// The encoding of the security part of an open connection reply 1.
pub open spec fn reply_1_security_bytes(ck: Option<(u32, Seq<u8>)>) -> Seq<u8> {
    match ck {
        Some((c, k)) => seq![0x01u8] + u32_be_bytes(c) + k,
        None => seq![0x00u8],
    }
}

proof fn lemma_reply_1_security_roundtrip(ck: Option<(u32, Seq<u8>)>, rest: Seq<u8>)
    requires
        ck matches Some((_, k)) ==> k.len() == 64,
    ensures
        spec_read_reply_1_security(reply_1_security_bytes(ck) + rest) == Ok::<
            (Option<(u32, Seq<u8>)>, Seq<u8>),
            Error,
        >((ck, rest)),
{
    match ck {
        Some((c, k)) => {
            let s1 = u32_be_bytes(c) + (k + rest);
            assert(reply_1_security_bytes(ck) + rest =~= seq![0x01u8] + s1);
            lemma_read_u8(0x01, s1);
            lemma_read_u32_be(c, k + rest);
            lemma_read_bytes(k, rest);
        },
        None => {
            lemma_read_u8(0x00, rest);
        },
    }
}

/// Reading an open connection reply 1 from its encoding followed by
/// `rest` gives the message and `rest` back, for a public key of 64 bytes.
#[verifier::spinoff_prover]
#[verifier::rlimit(40)]
pub proof fn lemma_open_connection_reply_1_roundtrip(
    m: (u64, Option<(u32, Seq<u8>)>, u16),
    rest: Seq<u8>,
)
    requires
        m.1 matches Some((_, k)) ==> k.len() == 64,
    ensures
        spec_read_open_connection_reply_1(open_connection_reply_1_bytes(m) + rest) == Ok::<
            ((u64, Option<(u32, Seq<u8>)>, u16), Seq<u8>),
            Error,
        >((m, rest)),
{
    let tail = u16_be_bytes(m.2) + rest;
    let s3 = reply_1_security_bytes(m.1) + tail;
    let s2 = u64_be_bytes(m.0) + s3;
    let s1 = offline_id() + s2;
    assert(open_connection_reply_1_bytes(m) + rest =~= seq![0x06u8] + s1);
    lemma_read_id(0x06, s1);
    lemma_read_offline_id(s2);
    lemma_read_u64_be(m.0, s3);
    lemma_reply_1_security_roundtrip(m.1, tail);
    lemma_read_u16_be(m.2, rest);
}

/// The second request of a connection handshake: the security cookie and
/// challenge if the server uses security, the server address the client
/// connects to, the MTU and the client's GUID.
#[derive(Clone, Copy, Debug, PartialEq)]
pub struct OpenConnectionRequest2Message {
    pub cookie_and_challenge: Option<(u32, Option<[u8; 64]>)>,
    pub binding_address: SocketAddress,
    pub mtu: u16,
    pub guid: u64,
}

impl View for OpenConnectionRequest2Message {
    type V = (Option<(u32, Option<Seq<u8>>)>, SocketAddress, u16, u64);

    open spec fn view(&self) -> (Option<(u32, Option<Seq<u8>>)>, SocketAddress, u16, u64) {
        (
            match self.cookie_and_challenge {
                Some((c, ch)) => Some(
                    (
                        c,
                        match ch {
                            Some(x) => Some(x@),
                            None => None,
                        },
                    ),
                ),
                None => None,
            },
            self.binding_address,
            self.mtu,
            self.guid,
        )
    }
}

/// The encoding of an open connection request 2: identifier, offline
/// marker, then (with security) the cookie and a flag followed by the
/// challenge if there is one, then the address, the MTU and the GUID.
pub open spec fn open_connection_request_2_bytes(
    m: (Option<(u32, Option<Seq<u8>>)>, SocketAddress, u16, u64),
) -> Seq<u8> {
    seq![0x07u8] + offline_id() + match m.0 {
        Some((c, ch)) => request_2_security_bytes(c, ch),
        None => Seq::empty(),
    } + socket_addr_bytes(m.1) + u16_be_bytes(m.2) + u64_be_bytes(m.3)
}

/// Reading the address, MTU and GUID that end an open connection
/// request 2.
pub open spec fn spec_read_request_2_tail(s: Seq<u8>) -> Result<
    ((SocketAddress, u16, u64), Seq<u8>),
    Error,
> {
    match spec_socket_addr(s) {
        Err(e) => Err(e),
        Ok((addr, s1)) => match spec_u16_be(s1) {
            Err(e) => Err(e),
            Ok((mtu, s2)) => match spec_u64_be(s2) {
                Err(e) => Err(e),
                Ok((guid, s3)) => Ok(((addr, mtu, guid), s3)),
            },
        },
    }
}

/// Reading an open connection request 2 sent without security.
pub open spec fn spec_read_open_connection_request_2(s: Seq<u8>) -> Result<
    ((Option<(u32, Option<Seq<u8>>)>, SocketAddress, u16, u64), Seq<u8>),
    Error,
> {
    match spec_id(s, 0x07) {
        Err(e) => Err(e),
        Ok((_, s1)) => match spec_offline_id(s1) {
            Err(e) => Err(e),
            Ok((_, s2)) => match spec_read_request_2_tail(s2) {
                Err(e) => Err(e),
                Ok(((addr, mtu, guid), s3)) => Ok(((None, addr, mtu, guid), s3)),
            },
        },
    }
}

/// Reading the cookie of an open connection request 2 sent with
/// security, and the challenge that follows it if the flag after the
/// cookie is set.
pub open spec fn spec_read_request_2_security(s: Seq<u8>) -> Result<
    ((u32, Option<Seq<u8>>), Seq<u8>),
    Error,
> {
    match spec_u32_be(s) {
        Err(e) => Err(e),
        Ok((cookie, s1)) => match spec_u8(s1) {
            Err(e) => Err(e),
            Ok((wrote_challenge, s2)) => if wrote_challenge != 0x00 {
                match spec_bytes(s2, 64) {
                    Err(e) => Err(e),
                    Ok((x, s3)) => Ok(((cookie, Some(x)), s3)),
                }
            } else {
                Ok(((cookie, None), s2))
            },
        },
    }
}

/// Reading an open connection request 2 sent with security.
pub open spec fn spec_read_open_connection_request_2_with_security(s: Seq<u8>) -> Result<
    ((Option<(u32, Option<Seq<u8>>)>, SocketAddress, u16, u64), Seq<u8>),
    Error,
> {
    match spec_id(s, 0x07) {
        Err(e) => Err(e),
        Ok((_, s1)) => match spec_offline_id(s1) {
            Err(e) => Err(e),
            Ok((_, s2)) => match spec_read_request_2_security(s2) {
                Err(e) => Err(e),
                Ok((sec, s3)) => match spec_read_request_2_tail(s3) {
                    Err(e) => Err(e),
                    Ok(((addr, mtu, guid), s4)) => Ok(((Some(sec), addr, mtu, guid), s4)),
                },
            },
        },
    }
}

impl OpenConnectionRequest2Message {
    /// Reads the cookie, the challenge flag and the challenge if the flag
    /// is set.
    fn read_security(reader: &mut DataReader) -> (r: Result<(u32, Option<[u8; 64]>), Error>)
        ensures
            match spec_read_request_2_security(old(reader)@) {
                Ok(((c2, x2), rest)) => r matches Ok((c, x)) && c == c2 && final(reader)@ == rest
                    && match (x, x2) {
                    (Some(a), Some(b)) => a@ == b,
                    (None, None) => true,
                    _ => false,
                },
                Err(e) => r == Err::<(u32, Option<[u8; 64]>), Error>(e),
            },
    {
        let cookie = reader.read_u32_be()?;
        let client_wrote_challenge = reader.read_u8()?;
        if client_wrote_challenge != 0x00 {
            let x = reader.read_bytes(64)?;
            Ok((cookie, Some(to_array_64(&x))))
        } else {
            Ok((cookie, None))
        }
    }

    /// Reads the address, MTU and GUID.
    fn read_tail(reader: &mut DataReader) -> (r: Result<(SocketAddress, u16, u64), Error>)
        ensures
            match spec_read_request_2_tail(old(reader)@) {
                Ok((v, rest)) => r == Ok::<(SocketAddress, u16, u64), Error>(v) && final(reader)@
                    == rest,
                Err(e) => r == Err::<(SocketAddress, u16, u64), Error>(e),
            },
    {
        let binding_address = reader.read_socket_addr()?;
        let mtu = reader.read_u16_be()?;
        let guid = reader.read_u64_be()?;
        Ok((binding_address, mtu, guid))
    }

    /// Reads the message as sent to a server without security.
    pub fn read_message(reader: &mut DataReader) -> (r: Result<OpenConnectionRequest2Message, Error>)
        ensures
            match spec_read_open_connection_request_2(old(reader)@) {
                Ok((v, rest)) => r matches Ok(m) && m@ == v && final(reader)@ == rest,
                Err(e) => r == Err::<OpenConnectionRequest2Message, Error>(e),
            },
    {
        reader.read_u8_and_compare(0x07)?;
        read_offline_message_id(reader)?;
        let (binding_address, mtu, guid) = Self::read_tail(reader)?;
        Ok(OpenConnectionRequest2Message { cookie_and_challenge: None, binding_address, mtu, guid })
    }

    /// Reads the message as sent to a server with security.
    pub fn read_message_with_security(reader: &mut DataReader) -> (r: Result<
        OpenConnectionRequest2Message,
        Error,
    >)
        ensures
            match spec_read_open_connection_request_2_with_security(old(reader)@) {
                Ok((v, rest)) => r matches Ok(m) && m@ == v && final(reader)@ == rest,
                Err(e) => r == Err::<OpenConnectionRequest2Message, Error>(e),
            },
    {
        reader.read_u8_and_compare(0x07)?;
        read_offline_message_id(reader)?;
        let (cookie, challenge) = Self::read_security(reader)?;
        let (binding_address, mtu, guid) = Self::read_tail(reader)?;
        Ok(
            OpenConnectionRequest2Message {
                cookie_and_challenge: Some((cookie, challenge)),
                binding_address,
                mtu,
                guid,
            },
        )
    }

    /// Appends the encoding of the message.
    pub fn write_message(&self, buf: &mut Vec<u8>) -> (r: Result<(), Error>)
        ensures
            r is Ok,
            final(buf)@ == old(buf)@ + open_connection_request_2_bytes(self@),
    {
        write_u8(buf, 0x07);
        write_offline_message_id(buf);
        match self.cookie_and_challenge {
            Some((cookie, challenge)) => {
                write_u32_be(buf, cookie);
                match challenge {
                    Some(challenge) => {
                        write_u8(buf, 0x01);  // Client wrote challenge: true
                        write_bytes(buf, challenge.as_slice());
                    },
                    None => {
                        write_u8(buf, 0x00);  // Client wrote challenge: false
                    },
                }
            },
            None => {},
        }
        write_socket_addr(buf, &self.binding_address);
        write_u16_be(buf, self.mtu);
        write_u64_be(buf, self.guid);
        assert(buf@ =~= old(buf)@ + open_connection_request_2_bytes(self@));
        Ok(())
    }
}

/// Reading the address, MTU and GUID from their encoding followed by
/// `rest`.
#[verifier::spinoff_prover]
#[verifier::rlimit(40)]
proof fn lemma_request_2_tail_roundtrip(addr: SocketAddress, mtu: u16, guid: u64, rest: Seq<u8>)
    ensures
        spec_read_request_2_tail(
            socket_addr_bytes(addr) + u16_be_bytes(mtu) + u64_be_bytes(guid) + rest,
        ) == Ok::<((SocketAddress, u16, u64), Seq<u8>), Error>(((addr, mtu, guid), rest)),
{
    let s2 = u64_be_bytes(guid) + rest;
    let s1 = u16_be_bytes(mtu) + s2;
    assert(socket_addr_bytes(addr) + u16_be_bytes(mtu) + u64_be_bytes(guid) + rest
        =~= socket_addr_bytes(addr) + s1);
    lemma_read_socket_addr(addr, s1);
    lemma_read_u16_be(mtu, s2);
    lemma_read_u64_be(guid, rest);
}

/// The encoding of the cookie and challenge of an open connection
/// request 2 sent with security.
pub open spec fn request_2_security_bytes(c: u32, ch: Option<Seq<u8>>) -> Seq<u8> {
    u32_be_bytes(c) + match ch {
        Some(x) => seq![0x01u8] + x,
        None => seq![0x00u8],
    }
}

proof fn lemma_request_2_security_roundtrip(c: u32, ch: Option<Seq<u8>>, rest: Seq<u8>)
    requires
        ch matches Some(x) ==> x.len() == 64,
    ensures
        spec_read_request_2_security(request_2_security_bytes(c, ch) + rest) == Ok::<
            ((u32, Option<Seq<u8>>), Seq<u8>),
            Error,
        >(((c, ch), rest)),
{
    let flag = match ch {
        Some(x) => seq![0x01u8] + x,
        None => seq![0x00u8],
    };
    assert(request_2_security_bytes(c, ch) + rest =~= u32_be_bytes(c) + (flag + rest));
    lemma_read_u32_be(c, flag + rest);
    match ch {
        Some(x) => {
            assert(flag + rest =~= seq![0x01u8] + (x + rest));
            lemma_read_u8(0x01, x + rest);
            lemma_read_bytes(x, rest);
        },
        None => {
            lemma_read_u8(0x00, rest);
        },
    }
}

/// Reading an open connection request 2 from its encoding followed by
/// `rest`, without security when it has no cookie and with security when
/// it has one, gives the message and `rest` back, for a challenge of 64
/// bytes.
#[verifier::spinoff_prover]
#[verifier::rlimit(40)]
pub proof fn lemma_open_connection_request_2_roundtrip(
    m: (Option<(u32, Option<Seq<u8>>)>, SocketAddress, u16, u64),
    rest: Seq<u8>,
)
    requires
        m.0 matches Some((_, Some(x))) ==> x.len() == 64,
    ensures
        m.0 is None ==> spec_read_open_connection_request_2(
            open_connection_request_2_bytes(m) + rest,
        ) == Ok::<((Option<(u32, Option<Seq<u8>>)>, SocketAddress, u16, u64), Seq<u8>), Error>(
            (m, rest),
        ),
        m.0 is Some ==> spec_read_open_connection_request_2_with_security(
            open_connection_request_2_bytes(m) + rest,
        ) == Ok::<((Option<(u32, Option<Seq<u8>>)>, SocketAddress, u16, u64), Seq<u8>), Error>(
            (m, rest),
        ),
{
    let tail = socket_addr_bytes(m.1) + u16_be_bytes(m.2) + u64_be_bytes(m.3) + rest;
    lemma_request_2_tail_roundtrip(m.1, m.2, m.3, rest);
    match m.0 {
        Some((c, ch)) => {
            let s2 = request_2_security_bytes(c, ch) + tail;
            let s1 = offline_id() + s2;
            assert(open_connection_request_2_bytes(m) + rest =~= seq![0x07u8] + s1);
            lemma_read_id(0x07, s1);
            lemma_read_offline_id(s2);
            lemma_request_2_security_roundtrip(c, ch, tail);
        },
        None => {
            let s1 = offline_id() + tail;
            assert(open_connection_request_2_bytes(m) + rest =~= seq![0x07u8] + s1);
            lemma_read_id(0x07, s1);
            lemma_read_offline_id(tail);
        },
    }
}

/// The answer to a connection request whose protocol version differs from
/// ours.
#[derive(Clone, Copy, Debug, PartialEq, Eq, Structural)]
pub struct IncompatibleProtocolVersionMessage {
    pub protocol_version: u8,
    pub guid: u64,
}

impl IncompatibleProtocolVersionMessage {
    /// The encoding: identifier, protocol version, offline marker, GUID.
    pub open spec fn spec_bytes(self) -> Seq<u8> {
        seq![0x19u8, self.protocol_version] + offline_id() + u64_be_bytes(self.guid)
    }

    /// Reading the message from `s`.
    pub open spec fn spec_read(s: Seq<u8>) -> Result<(IncompatibleProtocolVersionMessage, Seq<u8>), Error> {
        match spec_id(s, 0x19) {
            Err(e) => Err(e),
            Ok((_, s1)) => match spec_u8(s1) {
                Err(e) => Err(e),
                Ok((protocol_version, s2)) => match spec_offline_id(s2) {
                    Err(e) => Err(e),
                    Ok((_, s3)) => match spec_u64_be(s3) {
                        Err(e) => Err(e),
                        Ok((guid, s4)) => Ok(
                            (IncompatibleProtocolVersionMessage { protocol_version, guid }, s4),
                        ),
                    },
                },
            },
        }
    }

    /// Reads the message.
    pub fn read_message(reader: &mut DataReader) -> (r: Result<IncompatibleProtocolVersionMessage, Error>)
        ensures
            match IncompatibleProtocolVersionMessage::spec_read(old(reader)@) {
                Ok((m, rest)) => r == Ok::<IncompatibleProtocolVersionMessage, Error>(m)
                    && final(reader)@ == rest,
                Err(e) => r == Err::<IncompatibleProtocolVersionMessage, Error>(e),
            },
    {
        reader.read_u8_and_compare(0x19)?;
        let protocol_version = reader.read_u8()?;
        read_offline_message_id(reader)?;
        let guid = reader.read_u64_be()?;
        Ok(IncompatibleProtocolVersionMessage { protocol_version, guid })
    }

    /// Appends the encoding of the message.
    pub fn write_message(&self, buf: &mut Vec<u8>) -> (r: Result<(), Error>)
        ensures
            r is Ok,
            final(buf)@ == old(buf)@ + self.spec_bytes(),
    {
        write_u8(buf, 0x19);
        write_u8(buf, self.protocol_version);
        write_offline_message_id(buf);
        write_u64_be(buf, self.guid);
        assert(buf@ =~= old(buf)@ + self.spec_bytes());
        Ok(())
    }
}

/// Reading an incompatible protocol version message from its encoding
/// followed by `rest` gives the message and `rest` back.
pub proof fn lemma_incompatible_protocol_version_roundtrip(
    m: IncompatibleProtocolVersionMessage,
    rest: Seq<u8>,
)
    ensures
        IncompatibleProtocolVersionMessage::spec_read(m.spec_bytes() + rest) == Ok::<
            (IncompatibleProtocolVersionMessage, Seq<u8>),
            Error,
        >((m, rest)),
{
    let s3 = u64_be_bytes(m.guid) + rest;
    let s2 = offline_id() + s3;
    let s1 = seq![m.protocol_version] + s2;
    assert(m.spec_bytes() + rest =~= seq![0x19u8] + s1);
    lemma_read_id(0x19, s1);
    lemma_read_u8(m.protocol_version, s2);
    lemma_read_offline_id(s3);
    lemma_read_u64_be(m.guid, rest);
}

/// The answer to an open connection request 2: the server's GUID, the
/// client's address as the server sees it, the MTU, and the challenge
/// answer if the server uses security.
#[derive(Clone, Copy, Debug, PartialEq)]
pub struct OpenConnectionReply2Message {
    pub guid: u64,
    pub client_address: SocketAddress,
    pub mtu: u16,
    pub challenge_answer: Option<[u8; 128]>,
}

impl View for OpenConnectionReply2Message {
    type V = (u64, SocketAddress, u16, Option<Seq<u8>>);

    open spec fn view(&self) -> (u64, SocketAddress, u16, Option<Seq<u8>>) {
        (
            self.guid,
            self.client_address,
            self.mtu,
            match self.challenge_answer {
                Some(a) => Some(a@),
                None => None,
            },
        )
    }
}

/// The encoding of an open connection reply 2: identifier, offline
/// marker, GUID, client address, MTU, security flag and the challenge
/// answer when the flag is set.
pub open spec fn open_connection_reply_2_bytes(m: (u64, SocketAddress, u16, Option<Seq<u8>>)) -> Seq<u8> {
    seq![0x08u8] + offline_id() + u64_be_bytes(m.0) + socket_addr_bytes(m.1) + u16_be_bytes(m.2)
        + match m.3 {
        Some(a) => seq![0x01u8] + a,
        None => seq![0x00u8],
    }
}

/// Reading the security flag of an open connection reply 2 and the
/// challenge answer that follows it when it is set.
pub open spec fn spec_read_reply_2_security(s: Seq<u8>) -> Result<(Option<Seq<u8>>, Seq<u8>), Error> {
    match spec_u8(s) {
        Err(e) => Err(e),
        Ok((flag, s1)) => if flag != 0x00 {
            match spec_bytes(s1, 128) {
                Err(e) => Err(e),
                Ok((a, s2)) => Ok((Some(a), s2)),
            }
        } else {
            Ok((None, s1))
        },
    }
}

/// Reading an open connection reply 2 from `s`.
pub open spec fn spec_read_open_connection_reply_2(s: Seq<u8>) -> Result<
    ((u64, SocketAddress, u16, Option<Seq<u8>>), Seq<u8>),
    Error,
> {
    match spec_id(s, 0x08) {
        Err(e) => Err(e),
        Ok((_, s1)) => match spec_offline_id(s1) {
            Err(e) => Err(e),
            Ok((_, s2)) => match spec_u64_be(s2) {
                Err(e) => Err(e),
                Ok((guid, s3)) => match spec_socket_addr(s3) {
                    Err(e) => Err(e),
                    Ok((addr, s4)) => match spec_u16_be(s4) {
                        Err(e) => Err(e),
                        Ok((mtu, s5)) => match spec_read_reply_2_security(s5) {
                            Err(e) => Err(e),
                            Ok((answer, s6)) => Ok(((guid, addr, mtu, answer), s6)),
                        },
                    },
                },
            },
        },
    }
}

impl OpenConnectionReply2Message {
    /// Reads the security flag and the challenge answer if it is set.
    fn read_security(reader: &mut DataReader) -> (r: Result<Option<[u8; 128]>, Error>)
        ensures
            match spec_read_reply_2_security(old(reader)@) {
                Ok((v, rest)) => r matches Ok(x) && final(reader)@ == rest && match (x, v) {
                    (Some(a), Some(b)) => a@ == b,
                    (None, None) => true,
                    _ => false,
                },
                Err(e) => r == Err::<Option<[u8; 128]>, Error>(e),
            },
    {
        let flag = reader.read_u8()?;
        if flag != 0x00 {
            let a = reader.read_bytes(128)?;
            Ok(Some(to_array_128(&a)))
        } else {
            Ok(None)
        }
    }

    /// Reads the message.
    pub fn read_message(reader: &mut DataReader) -> (r: Result<OpenConnectionReply2Message, Error>)
        ensures
            match spec_read_open_connection_reply_2(old(reader)@) {
                Ok((v, rest)) => r matches Ok(m) && m@ == v && final(reader)@ == rest,
                Err(e) => r == Err::<OpenConnectionReply2Message, Error>(e),
            },
    {
        reader.read_u8_and_compare(0x08)?;
        read_offline_message_id(reader)?;
        let guid = reader.read_u64_be()?;
        let client_address = reader.read_socket_addr()?;
        let mtu = reader.read_u16_be()?;
        let challenge_answer = Self::read_security(reader)?;
        Ok(OpenConnectionReply2Message { guid, client_address, mtu, challenge_answer })
    }

    /// Appends the encoding of the message.
    pub fn write_message(&self, buf: &mut Vec<u8>) -> (r: Result<(), Error>)
        ensures
            r is Ok,
            final(buf)@ == old(buf)@ + open_connection_reply_2_bytes(self@),
    {
        write_u8(buf, 0x08);
        write_offline_message_id(buf);
        write_u64_be(buf, self.guid);
        write_socket_addr(buf, &self.client_address);
        write_u16_be(buf, self.mtu);
        match self.challenge_answer {
            Some(answer) => {
                write_u8(buf, 0x01);
                write_bytes(buf, answer.as_slice());
            },
            None => {
                write_u8(buf, 0x00);
            },
        }
        assert(buf@ =~= old(buf)@ + open_connection_reply_2_bytes(self@));
        Ok(())
    }
}

/// Reading an open connection reply 2 from its encoding followed by
/// `rest` gives the message and `rest` back, for a challenge answer of
/// 128 bytes.
#[verifier::spinoff_prover]
#[verifier::rlimit(40)]
pub proof fn lemma_open_connection_reply_2_roundtrip(
    m: (u64, SocketAddress, u16, Option<Seq<u8>>),
    rest: Seq<u8>,
)
    requires
        m.3 matches Some(a) ==> a.len() == 128,
    ensures
        spec_read_open_connection_reply_2(open_connection_reply_2_bytes(m) + rest) == Ok::<
            ((u64, SocketAddress, u16, Option<Seq<u8>>), Seq<u8>),
            Error,
        >((m, rest)),
{
    let sec = match m.3 {
        Some(a) => seq![0x01u8] + a,
        None => seq![0x00u8],
    };
    let s5 = sec + rest;
    let s4 = u16_be_bytes(m.2) + s5;
    let s3 = socket_addr_bytes(m.1) + s4;
    let s2 = u64_be_bytes(m.0) + s3;
    let s1 = offline_id() + s2;
    assert(open_connection_reply_2_bytes(m) + rest =~= seq![0x08u8] + s1);
    lemma_read_id(0x08, s1);
    lemma_read_offline_id(s2);
    lemma_read_u64_be(m.0, s3);
    lemma_read_socket_addr(m.1, s4);
    lemma_read_u16_be(m.2, s5);
    match m.3 {
        Some(a) => {
            assert(s5 =~= seq![0x01u8] + (a + rest));
            lemma_read_u8(0x01, a + rest);
            lemma_read_bytes(a, rest);
        },
        None => {
            lemma_read_u8(0x00, rest);
        },
    }
}

/// An offline answer that refuses a connection, such as "already
/// connected" or "no free incoming connections".
#[derive(Clone, Copy, Debug, PartialEq, Eq, Structural)]
pub struct ConnectErrorMessage {
    pub message_id: MessageId,
    pub guid: u64,
}

impl ConnectErrorMessage {
    /// The encoding: identifier, offline marker, GUID.
    pub open spec fn spec_bytes(self) -> Seq<u8> {
        seq![message_id_byte(self.message_id)] + offline_id() + u64_be_bytes(self.guid)
    }

    /// Reading the message from `s`; any known identifier is accepted.
    pub open spec fn spec_read(s: Seq<u8>) -> Result<(ConnectErrorMessage, Seq<u8>), Error> {
        match spec_u8(s) {
            Err(e) => Err(e),
            Ok((b, s1)) => match message_id_of(b) {
                None => Err(Error::UnknownMessageId(b)),
                Some(message_id) => match spec_offline_id(s1) {
                    Err(e) => Err(e),
                    Ok((_, s2)) => match spec_u64_be(s2) {
                        Err(e) => Err(e),
                        Ok((guid, s3)) => Ok((ConnectErrorMessage { message_id, guid }, s3)),
                    },
                },
            },
        }
    }

    /// Reads the message.
    pub fn read_message(reader: &mut DataReader) -> (r: Result<ConnectErrorMessage, Error>)
        ensures
            match ConnectErrorMessage::spec_read(old(reader)@) {
                Ok((m, rest)) => r == Ok::<ConnectErrorMessage, Error>(m) && final(reader)@ == rest,
                Err(e) => r == Err::<ConnectErrorMessage, Error>(e),
            },
    {
        let b = reader.read_u8()?;
        let message_id = MessageId::try_from(b)?;
        read_offline_message_id(reader)?;
        let guid = reader.read_u64_be()?;
        Ok(ConnectErrorMessage { message_id, guid })
    }

    /// Appends the encoding of the message.
    pub fn write_message(&self, buf: &mut Vec<u8>) -> (r: Result<(), Error>)
        ensures
            r is Ok,
            final(buf)@ == old(buf)@ + self.spec_bytes(),
    {
        write_u8(buf, u8::from(self.message_id));
        write_offline_message_id(buf);
        write_u64_be(buf, self.guid);
        assert(buf@ =~= old(buf)@ + self.spec_bytes());
        Ok(())
    }
}

/// Reading a connect error message from its encoding followed by `rest`
/// gives the message and `rest` back.
pub proof fn lemma_connect_error_roundtrip(m: ConnectErrorMessage, rest: Seq<u8>)
    ensures
        ConnectErrorMessage::spec_read(m.spec_bytes() + rest) == Ok::<
            (ConnectErrorMessage, Seq<u8>),
            Error,
        >((m, rest)),
{
    let s2 = u64_be_bytes(m.guid) + rest;
    let s1 = offline_id() + s2;
    assert(m.spec_bytes() + rest =~= seq![message_id_byte(m.message_id)] + s1);
    lemma_read_u8(message_id_byte(m.message_id), s1);
    lemma_message_id_roundtrip(m.message_id);
    lemma_read_offline_id(s2);
    lemma_read_u64_be(m.guid, rest);
}

/// A ping between connected peers.
#[derive(Clone, Copy, Debug, PartialEq, Eq, Structural)]
pub struct ConnectedPingMessage {
    pub time: u64,
}

impl ConnectedPingMessage {
    /// The encoding: identifier and time.
    pub open spec fn spec_bytes(self) -> Seq<u8> {
        seq![0x00u8] + u64_be_bytes(self.time)
    }

    /// Reading the message from `s`.
    pub open spec fn spec_read(s: Seq<u8>) -> Result<(ConnectedPingMessage, Seq<u8>), Error> {
        match spec_id(s, 0x00) {
            Err(e) => Err(e),
            Ok((_, s1)) => match spec_u64_be(s1) {
                Err(e) => Err(e),
                Ok((time, s2)) => Ok((ConnectedPingMessage { time }, s2)),
            },
        }
    }

    /// Reads the message.
    pub fn read_message(reader: &mut DataReader) -> (r: Result<ConnectedPingMessage, Error>)
        ensures
            match ConnectedPingMessage::spec_read(old(reader)@) {
                Ok((m, rest)) => r == Ok::<ConnectedPingMessage, Error>(m) && final(reader)@ == rest,
                Err(e) => r == Err::<ConnectedPingMessage, Error>(e),
            },
    {
        reader.read_u8_and_compare(0x00)?;
        let time = reader.read_u64_be()?;
        Ok(ConnectedPingMessage { time })
    }

    /// Appends the encoding of the message.
    pub fn write_message(&self, buf: &mut Vec<u8>) -> (r: Result<(), Error>)
        ensures
            r is Ok,
            final(buf)@ == old(buf)@ + self.spec_bytes(),
    {
        write_u8(buf, 0x00);
        write_u64_be(buf, self.time);
        assert(buf@ =~= old(buf)@ + self.spec_bytes());
        Ok(())
    }
}

/// Reading a connected ping from its encoding followed by `rest` gives
/// the message and `rest` back.
pub proof fn lemma_connected_ping_roundtrip(m: ConnectedPingMessage, rest: Seq<u8>)
    ensures
        ConnectedPingMessage::spec_read(m.spec_bytes() + rest) == Ok::<
            (ConnectedPingMessage, Seq<u8>),
            Error,
        >((m, rest)),
{
    let s1 = u64_be_bytes(m.time) + rest;
    assert(m.spec_bytes() + rest =~= seq![0x00u8] + s1);
    lemma_read_id(0x00, s1);
    lemma_read_u64_be(m.time, rest);
}

/// The answer to a connected ping: the ping's time and the time the pong
/// was sent.
#[derive(Clone, Copy, Debug, PartialEq, Eq, Structural)]
pub struct ConnectedPongMessage {
    pub send_ping_time: u64,
    pub send_pong_time: u64,
}

impl ConnectedPongMessage {
    /// The encoding: identifier, ping time, pong time.
    pub open spec fn spec_bytes(self) -> Seq<u8> {
        seq![0x03u8] + u64_be_bytes(self.send_ping_time) + u64_be_bytes(self.send_pong_time)
    }

    /// Reading the message from `s`.
    pub open spec fn spec_read(s: Seq<u8>) -> Result<(ConnectedPongMessage, Seq<u8>), Error> {
        match spec_id(s, 0x03) {
            Err(e) => Err(e),
            Ok((_, s1)) => match spec_u64_be(s1) {
                Err(e) => Err(e),
                Ok((send_ping_time, s2)) => match spec_u64_be(s2) {
                    Err(e) => Err(e),
                    Ok((send_pong_time, s3)) => Ok(
                        (ConnectedPongMessage { send_ping_time, send_pong_time }, s3),
                    ),
                },
            },
        }
    }

    /// Reads the message.
    pub fn read_message(reader: &mut DataReader) -> (r: Result<ConnectedPongMessage, Error>)
        ensures
            match ConnectedPongMessage::spec_read(old(reader)@) {
                Ok((m, rest)) => r == Ok::<ConnectedPongMessage, Error>(m) && final(reader)@ == rest,
                Err(e) => r == Err::<ConnectedPongMessage, Error>(e),
            },
    {
        reader.read_u8_and_compare(0x03)?;
        let send_ping_time = reader.read_u64_be()?;
        let send_pong_time = reader.read_u64_be()?;
        Ok(ConnectedPongMessage { send_ping_time, send_pong_time })
    }

    /// Appends the encoding of the message.
    pub fn write_message(&self, buf: &mut Vec<u8>) -> (r: Result<(), Error>)
        ensures
            r is Ok,
            final(buf)@ == old(buf)@ + self.spec_bytes(),
    {
        write_u8(buf, 0x03);
        write_u64_be(buf, self.send_ping_time);
        write_u64_be(buf, self.send_pong_time);
        assert(buf@ =~= old(buf)@ + self.spec_bytes());
        Ok(())
    }
}

/// Reading a connected pong from its encoding followed by `rest` gives
/// the message and `rest` back.
pub proof fn lemma_connected_pong_roundtrip(m: ConnectedPongMessage, rest: Seq<u8>)
    ensures
        ConnectedPongMessage::spec_read(m.spec_bytes() + rest) == Ok::<
            (ConnectedPongMessage, Seq<u8>),
            Error,
        >((m, rest)),
{
    let s2 = u64_be_bytes(m.send_pong_time) + rest;
    let s1 = u64_be_bytes(m.send_ping_time) + s2;
    assert(m.spec_bytes() + rest =~= seq![0x03u8] + s1);
    lemma_read_id(0x03, s1);
    lemma_read_u64_be(m.send_ping_time, s2);
    lemma_read_u64_be(m.send_pong_time, rest);
}

/// A connected client's request to be accepted: its GUID, its time,
/// whether it uses security, and the rest of the message (the security
/// proof, if any, and the password).
#[derive(Clone, Debug, PartialEq)]
pub struct ConnectionRequestMessage {
    pub guid: u64,
    pub time: u64,
    pub use_security: bool,
    pub remaining: Vec<u8>,
}

impl View for ConnectionRequestMessage {
    type V = (u64, u64, bool, Seq<u8>);

    open spec fn view(&self) -> (u64, u64, bool, Seq<u8>) {
        (self.guid, self.time, self.use_security, self.remaining@)
    }
}

/// The encoding of a connection request: identifier, GUID, time,
/// security flag, remaining bytes.
pub open spec fn connection_request_bytes(m: (u64, u64, bool, Seq<u8>)) -> Seq<u8> {
    seq![0x09u8] + u64_be_bytes(m.0) + u64_be_bytes(m.1) + seq![
        if m.2 {
            0x01u8
        } else {
            0x00u8
        },
    ] + m.3
}

/// Reading a connection request from `s`; the remaining bytes are the
/// rest of `s`.
pub open spec fn spec_read_connection_request(s: Seq<u8>) -> Result<(u64, u64, bool, Seq<u8>), Error> {
    match spec_id(s, 0x09) {
        Err(e) => Err(e),
        Ok((_, s1)) => match spec_u64_be(s1) {
            Err(e) => Err(e),
            Ok((guid, s2)) => match spec_u64_be(s2) {
                Err(e) => Err(e),
                Ok((time, s3)) => match spec_u8(s3) {
                    Err(e) => Err(e),
                    Ok((flag, s4)) => Ok((guid, time, flag != 0, s4)),
                },
            },
        },
    }
}

impl ConnectionRequestMessage {
    /// Reads the message.
    pub fn read_message(reader: &mut DataReader) -> (r: Result<ConnectionRequestMessage, Error>)
        ensures
            match spec_read_connection_request(old(reader)@) {
                Ok(v) => r matches Ok(m) && m@ == v,
                Err(e) => r == Err::<ConnectionRequestMessage, Error>(e),
            },
    {
        reader.read_u8_and_compare(0x09)?;
        let guid = reader.read_u64_be()?;
        let time = reader.read_u64_be()?;
        let flag = reader.read_u8()?;
        let remaining = reader.read_bytes_to_end();
        Ok(ConnectionRequestMessage { guid, time, use_security: flag != 0, remaining })
    }

    /// Appends the encoding of the message.
    pub fn write_message(&self, buf: &mut Vec<u8>) -> (r: Result<(), Error>)
        ensures
            r is Ok,
            final(buf)@ == old(buf)@ + connection_request_bytes(self@),
    {
        write_u8(buf, 0x09);
        write_u64_be(buf, self.guid);
        write_u64_be(buf, self.time);
        write_u8(buf, if self.use_security { 0x01 } else { 0x00 });
        write_bytes(buf, self.remaining.as_slice());
        assert(buf@ =~= old(buf)@ + connection_request_bytes(self@));
        Ok(())
    }
}

/// Reading a connection request from its encoding gives the message back.
pub proof fn lemma_connection_request_roundtrip(m: (u64, u64, bool, Seq<u8>))
    ensures
        spec_read_connection_request(connection_request_bytes(m)) == Ok::<
            (u64, u64, bool, Seq<u8>),
            Error,
        >(m),
{
    let flag: u8 = if m.2 {
        0x01u8
    } else {
        0x00u8
    };
    let s3 = seq![flag] + m.3;
    let s2 = u64_be_bytes(m.1) + s3;
    let s1 = u64_be_bytes(m.0) + s2;
    assert(connection_request_bytes(m) =~= seq![0x09u8] + s1);
    lemma_read_id(0x09, s1);
    lemma_read_u64_be(m.0, s2);
    lemma_read_u64_be(m.1, s3);
    lemma_read_u8(flag, m.3);
}

/// The encodings of the addresses, one after the other.
pub open spec fn addrs_bytes(addrs: Seq<SocketAddress>) -> Seq<u8>
    decreases addrs.len(),
{
    if addrs.len() == 0 {
        Seq::empty()
    } else {
        addrs_bytes(addrs.drop_last()) + socket_addr_bytes(addrs.last())
    }
}

/// Reading `n` socket addresses from `s`.
pub open spec fn spec_read_addrs(s: Seq<u8>, n: nat) -> Result<(Seq<SocketAddress>, Seq<u8>), Error>
    decreases n,
{
    if n == 0 {
        Ok((Seq::empty(), s))
    } else {
        match spec_read_addrs(s, (n - 1) as nat) {
            Err(e) => Err(e),
            Ok((addrs, s1)) => match spec_socket_addr(s1) {
                Err(e) => Err(e),
                Ok((a, s2)) => Ok((addrs.push(a), s2)),
            },
        }
    }
}

/// Once reading addresses fails, reading more addresses fails the same
/// way.
proof fn lemma_read_addrs_error(s: Seq<u8>, k: nat, n: nat)
    requires
        k <= n,
        spec_read_addrs(s, k) is Err,
    ensures
        spec_read_addrs(s, n) == spec_read_addrs(s, k),
    decreases n - k,
{
    if k < n {
        lemma_read_addrs_error(s, k, (n - 1) as nat);
    }
}

/// Reading addresses from their encodings followed by `rest` gives them
/// and `rest` back.
pub proof fn lemma_read_addrs_roundtrip(addrs: Seq<SocketAddress>, rest: Seq<u8>)
    ensures
        spec_read_addrs(addrs_bytes(addrs) + rest, addrs.len()) == Ok::<
            (Seq<SocketAddress>, Seq<u8>),
            Error,
        >((addrs, rest)),
    decreases addrs.len(),
{
    if addrs.len() > 0 {
        let init = addrs.drop_last();
        let a = addrs.last();
        let tail = socket_addr_bytes(a) + rest;
        assert(addrs_bytes(addrs) + rest =~= addrs_bytes(init) + tail);
        lemma_read_addrs_roundtrip(init, tail);
        lemma_read_socket_addr(a, rest);
        assert(init.push(a) =~= addrs);
    } else {
        assert(addrs_bytes(addrs) + rest =~= rest);
        assert(addrs =~= Seq::<SocketAddress>::empty());
    }
}

/// Reads `n` socket addresses.
fn read_addrs(reader: &mut DataReader, n: usize) -> (r: Result<Vec<SocketAddress>, Error>)
    ensures
        match spec_read_addrs(old(reader)@, n as nat) {
            Ok((addrs, rest)) => r matches Ok(v) && v@ == addrs && final(reader)@ == rest,
            Err(e) => r == Err::<Vec<SocketAddress>, Error>(e),
        },
{
    let ghost start = reader@;
    let mut addrs: Vec<SocketAddress> = Vec::new();
    let mut i: usize = 0;
    while i < n
        invariant
            i <= n,
            start == old(reader)@,
            spec_read_addrs(start, i as nat) == Ok::<(Seq<SocketAddress>, Seq<u8>), Error>(
                (addrs@, reader@),
            ),
        decreases n - i,
    {
        let ghost before = reader@;
        match reader.read_socket_addr() {
            Ok(a) => {
                addrs.push(a);
                i = i + 1;
            },
            Err(e) => {
                assert(spec_read_addrs(start, (i + 1) as nat) == Err::<
                    (Seq<SocketAddress>, Seq<u8>),
                    Error,
                >(e));
                proof {
                    lemma_read_addrs_error(start, (i + 1) as nat, n as nat);
                }
                return Err(e);
            },
        }
    }
    Ok(addrs)
}

/// Appends the encodings of the addresses.
fn write_addrs(buf: &mut Vec<u8>, addrs: &Vec<SocketAddress>)
    ensures
        final(buf)@ == old(buf)@ + addrs_bytes(addrs@),
{
    let mut i: usize = 0;
    while i < addrs.len()
        invariant
            i <= addrs@.len(),
            buf@ == old(buf)@ + addrs_bytes(addrs@.take(i as int)),
        decreases addrs@.len() - i,
    {
        write_socket_addr(buf, &addrs[i]);
        assert(addrs@.take(i as int + 1).drop_last() =~= addrs@.take(i as int));
        i = i + 1;
        assert(buf@ =~= old(buf)@ + addrs_bytes(addrs@.take(i as int)));
    }
    assert(addrs@.take(addrs@.len() as int) =~= addrs@);
}

/// The server's acceptance of a connection request: the client's address,
/// the client's index, the server's internal addresses, the time from the
/// request and the server's time.
#[derive(Clone, Debug, PartialEq)]
pub struct ConnectionRequestAcceptedMessage {
    pub client_addr: SocketAddress,
    pub client_index: u16,
    pub ip_list: Vec<SocketAddress>,
    pub client_time: u64,
    pub server_time: u64,
}

impl View for ConnectionRequestAcceptedMessage {
    type V = (SocketAddress, u16, Seq<SocketAddress>, u64, u64);

    open spec fn view(&self) -> (SocketAddress, u16, Seq<SocketAddress>, u64, u64) {
        (self.client_addr, self.client_index, self.ip_list@, self.client_time, self.server_time)
    }
}

/// The encoding of a connection request acceptance: identifier, client
/// address, big-endian client index, internal addresses, client time,
/// server time.
pub open spec fn connection_request_accepted_bytes(
    m: (SocketAddress, u16, Seq<SocketAddress>, u64, u64),
) -> Seq<u8> {
    seq![0x10u8] + socket_addr_bytes(m.0) + u16_be_bytes(m.1) + addrs_bytes(m.2) + u64_be_bytes(
        m.3,
    ) + u64_be_bytes(m.4)
}

/// Reading a connection request acceptance with `MAX_NUMBER_OF_INTERNAL_IDS`
/// internal addresses from `s`.
pub open spec fn spec_read_connection_request_accepted(s: Seq<u8>) -> Result<
    ((SocketAddress, u16, Seq<SocketAddress>, u64, u64), Seq<u8>),
    Error,
> {
    match spec_id(s, 0x10) {
        Err(e) => Err(e),
        Ok((_, s1)) => match spec_socket_addr(s1) {
            Err(e) => Err(e),
            Ok((client_addr, s2)) => match spec_u16_be(s2) {
                Err(e) => Err(e),
                Ok((client_index, s3)) => match spec_read_addrs(s3, 10) {
                    Err(e) => Err(e),
                    Ok((ip_list, s4)) => match spec_u64_be(s4) {
                        Err(e) => Err(e),
                        Ok((client_time, s5)) => match spec_u64_be(s5) {
                            Err(e) => Err(e),
                            Ok((server_time, s6)) => Ok(
                                ((client_addr, client_index, ip_list, client_time, server_time), s6),
                            ),
                        },
                    },
                },
            },
        },
    }
}

impl ConnectionRequestAcceptedMessage {
    /// Reads the message.
    pub fn read_message(reader: &mut DataReader) -> (r: Result<ConnectionRequestAcceptedMessage, Error>)
        ensures
            match spec_read_connection_request_accepted(old(reader)@) {
                Ok((v, rest)) => r matches Ok(m) && m@ == v && final(reader)@ == rest,
                Err(e) => r == Err::<ConnectionRequestAcceptedMessage, Error>(e),
            },
    {
        reader.read_u8_and_compare(0x10)?;
        let client_addr = reader.read_socket_addr()?;
        let client_index = reader.read_u16_be()?;
        let ip_list = read_addrs(reader, MAX_NUMBER_OF_INTERNAL_IDS)?;
        let client_time = reader.read_u64_be()?;
        let server_time = reader.read_u64_be()?;
        Ok(ConnectionRequestAcceptedMessage { client_addr, client_index, ip_list, client_time, server_time })
    }

    /// Appends the encoding of the message.
    pub fn write_message(&self, buf: &mut Vec<u8>) -> (r: Result<(), Error>)
        ensures
            r is Ok,
            final(buf)@ == old(buf)@ + connection_request_accepted_bytes(self@),
    {
        write_u8(buf, 0x10);
        write_socket_addr(buf, &self.client_addr);
        write_u16_be(buf, self.client_index);
        write_addrs(buf, &self.ip_list);
        write_u64_be(buf, self.client_time);
        write_u64_be(buf, self.server_time);
        assert(buf@ =~= old(buf)@ + connection_request_accepted_bytes(self@));
        Ok(())
    }
}

/// Reading a connection request acceptance with ten internal addresses
/// from its encoding followed by `rest` gives the message and `rest` back.
#[verifier::spinoff_prover]
#[verifier::rlimit(40)]
pub proof fn lemma_connection_request_accepted_roundtrip(
    m: (SocketAddress, u16, Seq<SocketAddress>, u64, u64),
    rest: Seq<u8>,
)
    requires
        m.2.len() == 10,
    ensures
        spec_read_connection_request_accepted(connection_request_accepted_bytes(m) + rest) == Ok::<
            ((SocketAddress, u16, Seq<SocketAddress>, u64, u64), Seq<u8>),
            Error,
        >((m, rest)),
{
    let s5 = u64_be_bytes(m.4) + rest;
    let s4 = u64_be_bytes(m.3) + s5;
    let s3 = addrs_bytes(m.2) + s4;
    let s2 = u16_be_bytes(m.1) + s3;
    let s1 = socket_addr_bytes(m.0) + s2;
    assert(connection_request_accepted_bytes(m) + rest =~= seq![0x10u8] + s1);
    lemma_read_id(0x10, s1);
    lemma_read_socket_addr(m.0, s2);
    lemma_read_u16_be(m.1, s3);
    lemma_read_addrs_roundtrip(m.2, s4);
    lemma_read_u64_be(m.3, s5);
    lemma_read_u64_be(m.4, rest);
}

/// The client's confirmation that completes a connection: the server
/// address, the client's internal addresses, and the ping and pong times.
#[derive(Clone, Debug, PartialEq)]
pub struct NewIncomingConnectionMessage {
    pub server_addr: SocketAddress,
    pub internal_addrs: Vec<SocketAddress>,
    pub ping_time: u64,
    pub pong_time: u64,
}

impl View for NewIncomingConnectionMessage {
    type V = (SocketAddress, Seq<SocketAddress>, u64, u64);

    open spec fn view(&self) -> (SocketAddress, Seq<SocketAddress>, u64, u64) {
        (self.server_addr, self.internal_addrs@, self.ping_time, self.pong_time)
    }
}

/// The encoding of a new incoming connection message: identifier, server
/// address, internal addresses, ping time, pong time.
pub open spec fn new_incoming_connection_bytes(m: (SocketAddress, Seq<SocketAddress>, u64, u64)) -> Seq<u8> {
    seq![0x13u8] + socket_addr_bytes(m.0) + addrs_bytes(m.1) + u64_be_bytes(m.2) + u64_be_bytes(m.3)
}

/// Reading a new incoming connection message with
/// `MAX_NUMBER_OF_INTERNAL_IDS` internal addresses from `s`.
pub open spec fn spec_read_new_incoming_connection(s: Seq<u8>) -> Result<
    ((SocketAddress, Seq<SocketAddress>, u64, u64), Seq<u8>),
    Error,
> {
    match spec_id(s, 0x13) {
        Err(e) => Err(e),
        Ok((_, s1)) => match spec_socket_addr(s1) {
            Err(e) => Err(e),
            Ok((server_addr, s2)) => match spec_read_addrs(s2, 10) {
                Err(e) => Err(e),
                Ok((internal_addrs, s3)) => match spec_u64_be(s3) {
                    Err(e) => Err(e),
                    Ok((ping_time, s4)) => match spec_u64_be(s4) {
                        Err(e) => Err(e),
                        Ok((pong_time, s5)) => Ok(
                            ((server_addr, internal_addrs, ping_time, pong_time), s5),
                        ),
                    },
                },
            },
        },
    }
}

impl NewIncomingConnectionMessage {
    /// Reads the message.
    pub fn read_message(reader: &mut DataReader) -> (r: Result<NewIncomingConnectionMessage, Error>)
        ensures
            match spec_read_new_incoming_connection(old(reader)@) {
                Ok((v, rest)) => r matches Ok(m) && m@ == v && final(reader)@ == rest,
                Err(e) => r == Err::<NewIncomingConnectionMessage, Error>(e),
            },
    {
        reader.read_u8_and_compare(0x13)?;
        let server_addr = reader.read_socket_addr()?;
        let internal_addrs = read_addrs(reader, MAX_NUMBER_OF_INTERNAL_IDS)?;
        let ping_time = reader.read_u64_be()?;
        let pong_time = reader.read_u64_be()?;
        Ok(NewIncomingConnectionMessage { server_addr, internal_addrs, ping_time, pong_time })
    }

    /// Appends the encoding of the message.
    pub fn write_message(&self, buf: &mut Vec<u8>) -> (r: Result<(), Error>)
        ensures
            r is Ok,
            final(buf)@ == old(buf)@ + new_incoming_connection_bytes(self@),
    {
        write_u8(buf, 0x13);
        write_socket_addr(buf, &self.server_addr);
        write_addrs(buf, &self.internal_addrs);
        write_u64_be(buf, self.ping_time);
        write_u64_be(buf, self.pong_time);
        assert(buf@ =~= old(buf)@ + new_incoming_connection_bytes(self@));
        Ok(())
    }
}

/// Reading a new incoming connection message with ten internal addresses
/// from its encoding followed by `rest` gives the message and `rest` back.
#[verifier::spinoff_prover]
#[verifier::rlimit(40)]
pub proof fn lemma_new_incoming_connection_roundtrip(
    m: (SocketAddress, Seq<SocketAddress>, u64, u64),
    rest: Seq<u8>,
)
    requires
        m.1.len() == 10,
    ensures
        spec_read_new_incoming_connection(new_incoming_connection_bytes(m) + rest) == Ok::<
            ((SocketAddress, Seq<SocketAddress>, u64, u64), Seq<u8>),
            Error,
        >((m, rest)),
{
    let s4 = u64_be_bytes(m.3) + rest;
    let s3 = u64_be_bytes(m.2) + s4;
    let s2 = addrs_bytes(m.1) + s3;
    let s1 = socket_addr_bytes(m.0) + s2;
    assert(new_incoming_connection_bytes(m) + rest =~= seq![0x13u8] + s1);
    lemma_read_id(0x13, s1);
    lemma_read_socket_addr(m.0, s2);
    lemma_read_addrs_roundtrip(m.1, s3);
    lemma_read_u64_be(m.2, s4);
    lemma_read_u64_be(m.3, rest);
}

} // verus!
