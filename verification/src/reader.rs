//! Reading RakNet primitives from a byte buffer.
//!
//! A `DataReader` is viewed as the sequence of bytes that are still to be
//! read. Every read either consumes exactly the bytes it decodes, or fails
//! without consuming anything because too few bytes are left.

use vstd::prelude::*;
use vstd::utf8::{decode_utf8, valid_utf8};

use crate::codec::{
    u16_be_value, u16_le_value, u24_le_value, u32_be_value, u32_le_value, u64_be_value,
    lemma_u24_bytes_roundtrip, lemma_u16_le_roundtrip, lemma_u24_le_roundtrip, lemma_u32_roundtrip,
    lemma_u64_roundtrip, u16_be_bytes, u16_le_bytes, u24_le_bytes, u32_be_bytes, u32_le_bytes, u64_be_bytes,
    lemma_u16_bytes_roundtrip, lemma_u32_bytes_roundtrip, lemma_u64_bytes_roundtrip, u64_from_be,
};
use crate::address::{inverted, socket_addr_bytes, u128_be_bytes, u128_be_value, SocketAddress};
use crate::error::{Error, ReadError};
use crate::number::{lemma_u24_bound, u24};

verus! {

/// The error reported when fewer than the needed bytes are left.
pub open spec fn short_read(left: Seq<u8>) -> Error {
    Error::ReadError(ReadError::NotAllBytesRead(left.len() as usize))
}

/// Reading one byte from `s`: the byte and what is left, or the error.
pub open spec fn spec_u8(s: Seq<u8>) -> Result<(u8, Seq<u8>), Error> {
    if s.len() >= 1 {
        Ok((s[0], s.skip(1)))
    } else {
        Err(short_read(s))
    }
}

/// Reading `n` bytes from `s`.
pub open spec fn spec_bytes(s: Seq<u8>, n: nat) -> Result<(Seq<u8>, Seq<u8>), Error> {
    if s.len() >= n {
        Ok((s.take(n as int), s.skip(n as int)))
    } else {
        Err(short_read(s))
    }
}

/// Reading a big-endian `u16` from `s`.
pub open spec fn spec_u16_be(s: Seq<u8>) -> Result<(u16, Seq<u8>), Error> {
    if s.len() >= 2 {
        Ok((u16_be_value(s.take(2)), s.skip(2)))
    } else {
        Err(short_read(s))
    }
}

/// Reading a little-endian `u16` from `s`.
pub open spec fn spec_u16_le(s: Seq<u8>) -> Result<(u16, Seq<u8>), Error> {
    if s.len() >= 2 {
        Ok((u16_le_value(s.take(2)), s.skip(2)))
    } else {
        Err(short_read(s))
    }
}

/// Reading a little-endian `u32` from `s`.
pub open spec fn spec_u32_le(s: Seq<u8>) -> Result<(u32, Seq<u8>), Error> {
    if s.len() >= 4 {
        Ok((u32_le_value(s.take(4)), s.skip(4)))
    } else {
        Err(short_read(s))
    }
}

/// Reading a socket address from `s`: the IP version, then the fields
/// of `socket_addr_bytes`. The IPv6 family field is read and ignored.
pub open spec fn spec_socket_addr(s: Seq<u8>) -> Result<(SocketAddress, Seq<u8>), Error> {
    match spec_u8(s) {
        Err(e) => Err(e),
        Ok((version, s1)) => if version == 4 {
            match spec_bytes(s1, 4) {
                Err(e) => Err(e),
                Ok((ip, s2)) => match spec_u16_be(s2) {
                    Err(e) => Err(e),
                    Ok((port, s3)) => Ok(
                        (SocketAddress::V4 { ip: u32_be_value(inverted(ip)), port }, s3),
                    ),
                },
            }
        } else if version == 6 {
            match spec_u16_le(s1) {
                Err(e) => Err(e),
                Ok((_family, s2)) => match spec_u16_be(s2) {
                    Err(e) => Err(e),
                    Ok((port, s3)) => match spec_u32_le(s3) {
                        Err(e) => Err(e),
                        Ok((flowinfo, s4)) => match spec_bytes(s4, 16) {
                            Err(e) => Err(e),
                            Ok((ip, s5)) => match spec_u32_le(s5) {
                                Err(e) => Err(e),
                                Ok((scope_id, s6)) => Ok(
                                    (
                                        SocketAddress::V6 {
                                            ip: u128_be_value(ip),
                                            port,
                                            flowinfo,
                                            scope_id,
                                        },
                                        s6,
                                    ),
                                ),
                            },
                        },
                    },
                },
            }
        } else {
            Err(Error::ReadError(ReadError::InvalidIpVersion))
        },
    }
}

/// Reading a little-endian 24-bit number from `s`.
pub open spec fn spec_u24(s: Seq<u8>) -> Result<(u24, Seq<u8>), Error> {
    if s.len() >= 3 {
        Ok((u24::spec_new(u24_le_value(s.take(3)) as nat), s.skip(3)))
    } else {
        Err(short_read(s))
    }
}

/// Reading a big-endian `u32` from `s`.
pub open spec fn spec_u32_be(s: Seq<u8>) -> Result<(u32, Seq<u8>), Error> {
    if s.len() >= 4 {
        Ok((u32_be_value(s.take(4)), s.skip(4)))
    } else {
        Err(short_read(s))
    }
}

/// Reading a big-endian `u64` from `s`.
pub open spec fn spec_u64_be(s: Seq<u8>) -> Result<(u64, Seq<u8>), Error> {
    if s.len() >= 8 {
        Ok((u64_be_value(s.take(8)), s.skip(8)))
    } else {
        Err(short_read(s))
    }
}

/// A read that follows `spec` moved the reader from `old` to `new`:
/// on success it returned the decoded value and left the rest, on failure
/// it returned the error and consumed nothing.
pub open spec fn read_follows<T>(
    spec: Result<(T, Seq<u8>), Error>,
    r: Result<T, Error>,
    old: Seq<u8>,
    new: Seq<u8>,
) -> bool {
    match spec {
        Ok((v, rest)) => r == Ok::<T, Error>(v) && new == rest,
        Err(e) => r == Err::<T, Error>(e) && new == old,
    }
}

/// Reading a byte from its encoding followed by `rest` gives it back.
pub proof fn lemma_read_u8(v: u8, rest: Seq<u8>)
    ensures
        spec_u8(seq![v] + rest) == Ok::<(u8, Seq<u8>), Error>((v, rest)),
{
    assert((seq![v] + rest).skip(1) =~= rest);
}

/// Reading `bytes.len()` bytes from `bytes + rest` gives `bytes` back.
pub proof fn lemma_read_bytes(bytes: Seq<u8>, rest: Seq<u8>)
    ensures
        spec_bytes(bytes + rest, bytes.len()) == Ok::<(Seq<u8>, Seq<u8>), Error>((bytes, rest)),
{
    assert((bytes + rest).take(bytes.len() as int) =~= bytes);
    assert((bytes + rest).skip(bytes.len() as int) =~= rest);
}

/// Reading a big-endian `u16` from its encoding gives it back.
pub proof fn lemma_read_u16_be(v: u16, rest: Seq<u8>)
    ensures
        spec_u16_be(u16_be_bytes(v) + rest) == Ok::<(u16, Seq<u8>), Error>((v, rest)),
{
    lemma_u16_le_roundtrip(v);
    assert((u16_be_bytes(v) + rest).take(2) =~= u16_be_bytes(v));
    assert((u16_be_bytes(v) + rest).skip(2) =~= rest);
}

/// Reading a 24-bit number from its encoding gives it back.
pub proof fn lemma_read_u24(v: u24, rest: Seq<u8>)
    ensures
        spec_u24(u24_le_bytes(v@ as u32) + rest) == Ok::<(u24, Seq<u8>), Error>((v, rest)),
{
    broadcast use lemma_u24_bound;

    lemma_u24_le_roundtrip(v@ as u32);
    u24::lemma_spec_new_view(v);
    assert((u24_le_bytes(v@ as u32) + rest).take(3) =~= u24_le_bytes(v@ as u32));
    assert((u24_le_bytes(v@ as u32) + rest).skip(3) =~= rest);
}

/// Reading a big-endian `u32` from its encoding gives it back.
pub proof fn lemma_read_u32_be(v: u32, rest: Seq<u8>)
    ensures
        spec_u32_be(u32_be_bytes(v) + rest) == Ok::<(u32, Seq<u8>), Error>((v, rest)),
{
    lemma_u32_roundtrip(v);
    assert((u32_be_bytes(v) + rest).take(4) =~= u32_be_bytes(v));
    assert((u32_be_bytes(v) + rest).skip(4) =~= rest);
}

/// Reading a big-endian `u64` from its encoding gives it back.
pub proof fn lemma_read_u64_be(v: u64, rest: Seq<u8>)
    ensures
        spec_u64_be(u64_be_bytes(v) + rest) == Ok::<(u64, Seq<u8>), Error>((v, rest)),
{
    lemma_u64_roundtrip(v);
    assert((u64_be_bytes(v) + rest).take(8) =~= u64_be_bytes(v));
    assert((u64_be_bytes(v) + rest).skip(8) =~= rest);
}

/// Inverting every byte twice gives the bytes back.
pub proof fn lemma_inverted_twice(s: Seq<u8>)
    ensures
        inverted(inverted(s)) == s,
{
    assert forall|i: int| 0 <= i < s.len() implies inverted(inverted(s))[i] == s[i] by {
        let b = s[i];
        assert(!(!b) == b) by (bit_vector);
    }
    assert(inverted(inverted(s)) =~= s);
}

/// Decoding the sixteen big-endian bytes of a 128-bit value gives the
/// value back.
pub proof fn lemma_u128_roundtrip(v: u128)
    ensures
        u128_be_bytes(v).len() == 16,
        u128_be_value(u128_be_bytes(v)) == v,
{
    let hi = (v >> 64u128) as u64;
    let lo = v as u64;
    lemma_u64_roundtrip(hi);
    lemma_u64_roundtrip(lo);
    assert(u128_be_bytes(v).take(8) =~= u64_be_bytes(hi));
    assert(u128_be_bytes(v).skip(8) =~= u64_be_bytes(lo));
    assert(((((v >> 64u128) as u64) as u128) << 64u128) | ((v as u64) as u128) == v)
        by (bit_vector);
}

/// Encoding the value of sixteen bytes gives the bytes back.
pub proof fn lemma_u128_bytes_roundtrip(s: Seq<u8>)
    requires
        s.len() == 16,
    ensures
        u128_be_bytes(u128_be_value(s)) == s,
{
    let hi = u64_be_value(s.take(8));
    let lo = u64_be_value(s.skip(8));
    lemma_u64_bytes_roundtrip(s.take(8));
    lemma_u64_bytes_roundtrip(s.skip(8));
    assert(((((hi as u128) << 64u128) | (lo as u128)) >> 64u128) as u64 == hi) by (bit_vector);
    assert((((hi as u128) << 64u128) | (lo as u128)) as u64 == lo) by (bit_vector);
    assert(u128_be_bytes(u128_be_value(s)) =~= s.take(8) + s.skip(8));
    assert(s.take(8) + s.skip(8) =~= s);
}

/// Reading a socket address from its encoding followed by `rest` gives
/// the address and `rest` back.
pub proof fn lemma_read_socket_addr(a: SocketAddress, rest: Seq<u8>)
    ensures
        spec_socket_addr(socket_addr_bytes(a) + rest) == Ok::<(SocketAddress, Seq<u8>), Error>(
            (a, rest),
        ),
{
    let s = socket_addr_bytes(a) + rest;
    match a {
        SocketAddress::V4 { ip, port } => {
            lemma_u32_roundtrip(ip);
            lemma_u16_le_roundtrip(port);
            lemma_inverted_twice(u32_be_bytes(ip));
            let s1 = s.skip(1);
            assert(s1.take(4) =~= inverted(u32_be_bytes(ip)));
            let s2 = s1.skip(4);
            assert(s2.take(2) =~= u16_be_bytes(port));
            assert(s2.skip(2) =~= rest);
        },
        SocketAddress::V6 { ip, port, flowinfo, scope_id } => {
            lemma_u128_roundtrip(ip);
            lemma_u16_le_roundtrip(port);
            lemma_u32_roundtrip(flowinfo);
            lemma_u32_roundtrip(scope_id);
            let s1 = s.skip(1);
            let s2 = s1.skip(2);
            assert(s2.take(2) =~= u16_be_bytes(port));
            let s3 = s2.skip(2);
            assert(s3.take(4) =~= u32_le_bytes(flowinfo));
            let s4 = s3.skip(4);
            assert(s4.take(16) =~= u128_be_bytes(ip));
            let s5 = s4.skip(16);
            assert(s5.take(4) =~= u32_le_bytes(scope_id));
            assert(s5.skip(4) =~= rest);
        },
    }
}

/// The text that UTF-8 bytes encode, or `None` when the bytes are not
/// well-formed UTF-8.
pub open spec fn utf8_text(bytes: Seq<u8>) -> Option<Seq<char>> {
    if valid_utf8(bytes) {
        Some(decode_utf8(bytes))
    } else {
        None
    }
}

/// Calls `String::from_utf8`. The contract claims that it succeeds exactly
/// on well-formed UTF-8 and then holds the text the bytes encode
/// (`utf8_text`, over vstd's UTF-8 specification).
#[verifier::external_body]
fn string_from_utf8(bytes: Vec<u8>) -> (r: Option<String>)
    ensures
        match r {
            Some(s) => utf8_text(bytes@) == Some(s@),
            None => utf8_text(bytes@) is None,
        },
{
    String::from_utf8(bytes).ok()
}

/// Reading a string from `s`: a big-endian `u16` length and that many
/// bytes of UTF-8 text.
pub open spec fn spec_fixed_string(s: Seq<u8>) -> Result<(Seq<char>, Seq<u8>), Error> {
    match spec_u16_be(s) {
        Err(e) => Err(e),
        Ok((len, s1)) => match spec_bytes(s1, len as nat) {
            Err(e) => Err(e),
            Ok((bytes, s2)) => match utf8_text(bytes) {
                Some(text) => Ok((text, s2)),
                None => Err(Error::ReadError(ReadError::InvalidString)),
            },
        },
    }
}

/// A cursor over a byte slice.
pub struct DataReader<'a> {
    data: &'a [u8],
    pos: usize,
}

impl<'a> View for DataReader<'a> {
    type V = Seq<u8>;

    /// The bytes that are left to read.
    closed spec fn view(&self) -> Seq<u8> {
        self.data@.subrange(self.pos as int, self.data@.len() as int)
    }
}

impl<'a> DataReader<'a> {
    #[verifier::type_invariant]
    closed spec fn inv(self) -> bool {
        self.pos <= self.data@.len()
    }

    /// A reader positioned at the start of `data`.
    pub fn new(data: &'a [u8]) -> (r: DataReader<'a>)
        ensures
            r@ == data@,
    {
        let r = DataReader { data, pos: 0 };
        assert(r@ =~= data@);
        r
    }

    /// The number of bytes left to read.
    pub fn remaining(&self) -> (r: usize)
        ensures
            r == self@.len(),
    {
        proof {
            use_type_invariant(self);
        }
        self.data.len() - self.pos
    }

    /// True if any bytes are left to read.
    pub fn has_more(&self) -> (r: bool)
        ensures
            r == (self@.len() > 0),
    {
        self.remaining() > 0
    }

    /// Consumes the next `n` bytes and returns them as a slice.
    fn take(&mut self, n: usize) -> (r: Result<&'a [u8], Error>)
        ensures
            r is Ok <==> n <= old(self)@.len(),
            r matches Ok(s) ==> s@ == old(self)@.take(n as int) && final(self)@ == old(self)@.skip(n as int),
            r matches Err(e) ==> e == short_read(old(self)@) && final(self)@ == old(self)@,
    {
        proof {
            use_type_invariant(&*self);
        }
        let left = self.data.len() - self.pos;
        if n <= left {
            let s = &self.data[self.pos..self.pos + n];
            self.pos = self.pos + n;
            assert(s@ =~= old(self)@.take(n as int));
            assert(self@ =~= old(self)@.skip(n as int));
            Ok(s)
        } else {
            Err(Error::ReadError(ReadError::NotAllBytesRead(left)))
        }
    }

    /// Reads one byte.
    pub fn read_u8(&mut self) -> (r: Result<u8, Error>)
        ensures
            read_follows(spec_u8(old(self)@), r, old(self)@, final(self)@),
            r is Ok <==> old(self)@.len() >= 1,
            r matches Ok(v) ==> v == old(self)@[0] && final(self)@ == old(self)@.skip(1),
            r matches Err(e) ==> e == short_read(old(self)@) && final(self)@ == old(self)@,
    {
        let s = self.take(1)?;
        Ok(s[0])
    }

    /// Reads one byte and checks that it equals `data`.
    pub fn read_u8_and_compare(&mut self, data: u8) -> (r: Result<(), Error>)
        ensures
            old(self)@.len() >= 1 ==> final(self)@ == old(self)@.skip(1) && (r is Ok <==> old(self)@[0] == data) && (r matches Err(e) ==> e == Error::ReadError(ReadError::CompareFailed)),
            old(self)@.len() < 1 ==> r == Err::<(), Error>(short_read(old(self)@)) && final(self)@ == old(self)@,
    {
        let b = self.read_u8()?;
        if b == data {
            Ok(())
        } else {
            Err(Error::ReadError(ReadError::CompareFailed))
        }
    }

    /// Reads `n` bytes into a new vector.
    pub fn read_bytes(&mut self, n: usize) -> (r: Result<Vec<u8>, Error>)
        ensures
            r is Ok <==> n <= old(self)@.len(),
            r matches Ok(v) ==> v@ == old(self)@.take(n as int) && final(self)@ == old(self)@.skip(n as int),
            r matches Err(e) ==> e == short_read(old(self)@) && final(self)@ == old(self)@,
    {
        let s = self.take(n)?;
        Ok(slice_to_vec(s))
    }

    /// Reads all remaining bytes.
    pub fn read_bytes_to_end(&mut self) -> (r: Vec<u8>)
        ensures
            r@ == old(self)@,
            final(self)@.len() == 0,
    {
        let n = self.remaining();
        match self.take(n) {
            Ok(s) => slice_to_vec(s),
            Err(_) => Vec::new(),
        }
    }

    /// Reads `data.len()` bytes and checks that they equal `data`.
    pub fn read_bytes_and_compare(&mut self, data: &[u8]) -> (r: Result<(), Error>)
        ensures
            data@.len() <= old(self)@.len() ==> final(self)@ == old(self)@.skip(data@.len() as int)
                && (r is Ok <==> old(self)@.take(data@.len() as int) == data@) && (r matches Err(e) ==> e == Error::ReadError(ReadError::CompareFailed)),
            data@.len() > old(self)@.len() ==> r == Err::<(), Error>(short_read(old(self)@))
                && final(self)@ == old(self)@,
    {
        let s = self.take(data.len())?;
        if slices_equal(s, data) {
            Ok(())
        } else {
            Err(Error::ReadError(ReadError::CompareFailed))
        }
    }

    /// Reads a little-endian `u16`.
    pub fn read_u16(&mut self) -> (r: Result<u16, Error>)
        ensures
            r is Ok <==> old(self)@.len() >= 2,
            r matches Ok(v) ==> v == u16_le_value(old(self)@.take(2)) && final(self)@ == old(self)@.skip(2),
            r matches Err(e) ==> e == short_read(old(self)@) && final(self)@ == old(self)@,
    {
        let s = self.take(2)?;
        Ok((s[0] as u16) | ((s[1] as u16) << 8u16))
    }

    /// Reads a big-endian `u16`.
    pub fn read_u16_be(&mut self) -> (r: Result<u16, Error>)
        ensures
            read_follows(spec_u16_be(old(self)@), r, old(self)@, final(self)@),
            r is Ok <==> old(self)@.len() >= 2,
            r matches Ok(v) ==> v == u16_be_value(old(self)@.take(2)) && final(self)@ == old(self)@.skip(2),
            r matches Err(e) ==> e == short_read(old(self)@) && final(self)@ == old(self)@,
    {
        let s = self.take(2)?;
        Ok((s[1] as u16) | ((s[0] as u16) << 8u16))
    }

    /// Reads a string: a big-endian `u16` length and that many bytes of
    /// UTF-8 text.
    pub fn read_fixed_string(&mut self) -> (r: Result<String, Error>)
        ensures
            match spec_fixed_string(old(self)@) {
                Ok((text, rest)) => r matches Ok(s) && s@ == text && final(self)@ == rest,
                Err(e) => r matches Err(x) && x == e,
            },
    {
        let length = self.read_u16_be()?;
        let bytes = self.read_bytes(length as usize)?;
        match string_from_utf8(bytes) {
            Some(s) => Ok(s),
            None => Err(Error::ReadError(ReadError::InvalidString)),
        }
    }

    /// Reads a little-endian 24-bit number.
    pub fn read_u24(&mut self) -> (r: Result<u24, Error>)
        ensures
            read_follows(spec_u24(old(self)@), r, old(self)@, final(self)@),
            r is Ok <==> old(self)@.len() >= 3,
            r matches Ok(v) ==> v@ == u24_le_value(old(self)@.take(3)) as nat && final(self)@
                == old(self)@.skip(3),
            r matches Err(e) ==> e == short_read(old(self)@) && final(self)@ == old(self)@,
    {
        let s = self.take(3)?;
        Ok(u24::from_le_bytes([s[0], s[1], s[2]]))
    }

    /// Reads a little-endian `u32`.
    pub fn read_u32(&mut self) -> (r: Result<u32, Error>)
        ensures
            r is Ok <==> old(self)@.len() >= 4,
            r matches Ok(v) ==> v == u32_le_value(old(self)@.take(4)) && final(self)@ == old(self)@.skip(4),
            r matches Err(e) ==> e == short_read(old(self)@) && final(self)@ == old(self)@,
    {
        let s = self.take(4)?;
        Ok((s[0] as u32) | ((s[1] as u32) << 8u32) | ((s[2] as u32) << 16u32) | ((s[3] as u32)
            << 24u32))
    }

    /// Reads a big-endian `u32`.
    pub fn read_u32_be(&mut self) -> (r: Result<u32, Error>)
        ensures
            read_follows(spec_u32_be(old(self)@), r, old(self)@, final(self)@),
            r is Ok <==> old(self)@.len() >= 4,
            r matches Ok(v) ==> v == u32_be_value(old(self)@.take(4)) && final(self)@ == old(self)@.skip(4),
            r matches Err(e) ==> e == short_read(old(self)@) && final(self)@ == old(self)@,
    {
        let s = self.take(4)?;
        Ok((s[3] as u32) | ((s[2] as u32) << 8u32) | ((s[1] as u32) << 16u32) | ((s[0] as u32)
            << 24u32))
    }

    /// Reads a big-endian `u64`.
    pub fn read_u64_be(&mut self) -> (r: Result<u64, Error>)
        ensures
            read_follows(spec_u64_be(old(self)@), r, old(self)@, final(self)@),
            r is Ok <==> old(self)@.len() >= 8,
            r matches Ok(v) ==> v == u64_be_value(old(self)@.take(8)) && final(self)@ == old(self)@.skip(8),
            r matches Err(e) ==> e == short_read(old(self)@) && final(self)@ == old(self)@,
    {
        let s = self.take(8)?;
        Ok(((s[0] as u64) << 56u64) | ((s[1] as u64) << 48u64) | ((s[2] as u64) << 40u64) | ((
        s[3] as u64) << 32u64) | ((s[4] as u64) << 24u64) | ((s[5] as u64) << 16u64) | ((
        s[6] as u64) << 8u64) | (s[7] as u64))
    }

    /// Reads the four big-endian bytes of an IEEE 754 single-precision
    /// number and returns its bit pattern.
    pub fn read_f32_be(&mut self) -> (r: Result<u32, Error>)
        ensures
            read_follows(spec_u32_be(old(self)@), r, old(self)@, final(self)@),
            r is Ok <==> old(self)@.len() >= 4,
            r matches Ok(v) ==> v == u32_be_value(old(self)@.take(4)) && final(self)@ == old(self)@.skip(4),
            r matches Err(e) ==> e == short_read(old(self)@) && final(self)@ == old(self)@,
    {
        self.read_u32_be()
    }

    /// Consumes the rest of the buffer as padding and returns its length,
    /// which may not exceed `u16::MAX`.
    pub fn read_zero_padding(&mut self) -> (r: Result<u16, Error>)
        ensures
            r is Ok <==> old(self)@.len() <= u16::MAX,
            r matches Ok(n) ==> n == old(self)@.len(),
            r matches Err(e) ==> e == Error::ReadError(ReadError::TooLongZeroPadding),
            final(self)@.len() == if old(self)@.len() <= u16::MAX {
                0
            } else {
                old(self)@.len() - u16::MAX - 1
            },
    {
        let left = self.remaining();
        if left <= 0xFFFF {
            let _ = self.take(left);
            Ok(left as u16)
        } else {
            let _ = self.take(0x10000);
            Err(Error::ReadError(ReadError::TooLongZeroPadding))
        }
    }
    /// Reads a socket address.
    pub fn read_socket_addr(&mut self) -> (r: Result<SocketAddress, Error>)
        ensures
            match spec_socket_addr(old(self)@) {
                Ok((a, rest)) => r == Ok::<SocketAddress, Error>(a) && final(self)@ == rest,
                Err(e) => r == Err::<SocketAddress, Error>(e),
            },
    {
        let version = self.read_u8()?;
        if version == 4 {
            let ip = self.read_bytes(4)?;
            let port = self.read_u16_be()?;
            let (a, b, c, d) = (!ip[0], !ip[1], !ip[2], !ip[3]);
            assert(inverted(ip@) =~= seq![a, b, c, d]);
            let value: u32 = (d as u32) | ((c as u32) << 8u32) | ((b as u32) << 16u32) | ((
            a as u32) << 24u32);
            Ok(SocketAddress::V4 { ip: value, port })
        } else if version == 6 {
            let _family = self.read_u16()?;
            let port = self.read_u16_be()?;
            let flowinfo = self.read_u32()?;
            let ip = self.read_bytes(16)?;
            let scope_id = self.read_u32()?;
            let hi: u64 = ((ip[0] as u64) << 56u64) | ((ip[1] as u64) << 48u64) | ((ip[2] as u64)
                << 40u64) | ((ip[3] as u64) << 32u64) | ((ip[4] as u64) << 24u64) | ((
            ip[5] as u64) << 16u64) | ((ip[6] as u64) << 8u64) | (ip[7] as u64);
            let lo: u64 = ((ip[8] as u64) << 56u64) | ((ip[9] as u64) << 48u64) | ((ip[10] as u64)
                << 40u64) | ((ip[11] as u64) << 32u64) | ((ip[12] as u64) << 24u64) | ((
            ip[13] as u64) << 16u64) | ((ip[14] as u64) << 8u64) | (ip[15] as u64);
            assert(hi == u64_be_value(ip@.take(8)));
            assert(lo == u64_be_value(ip@.skip(8)));
            let value: u128 = ((hi as u128) << 64u128) | (lo as u128);
            Ok(SocketAddress::V6 { ip: value, port, flowinfo, scope_id })
        } else {
            Err(Error::ReadError(ReadError::InvalidIpVersion))
        }
    }
}

/// Copies a slice into a new vector.
pub fn slice_to_vec(s: &[u8]) -> (r: Vec<u8>)
    ensures
        r@ == s@,
{
    let mut v: Vec<u8> = Vec::with_capacity(s.len());
    let mut i: usize = 0;
    while i < s.len()
        invariant
            i <= s@.len(),
            v@ == s@.take(i as int),
        decreases s@.len() - i,
    {
        v.push(s[i]);
        i = i + 1;
        assert(v@ =~= s@.take(i as int));
    }
    assert(s@.take(s@.len() as int) =~= s@);
    v
}

/// Compares two byte slices element by element.
pub fn slices_equal(a: &[u8], b: &[u8]) -> (r: bool)
    ensures
        r == (a@ == b@),
{
    if a.len() != b.len() {
        return false;
    }
    let mut i: usize = 0;
    while i < a.len()
        invariant
            i <= a@.len(),
            a@.len() == b@.len(),
            forall|j: int| 0 <= j < i ==> a@[j] == b@[j],
        decreases a@.len() - i,
    {
        if a[i] != b[i] {
            return false;
        }
        i = i + 1;
    }
    assert(a@ =~= b@);
    true
}

} // verus!
