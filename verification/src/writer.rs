//! Appending RakNet primitives to a byte buffer.
//!
//! Every function appends exactly the encoding of its argument to the
//! buffer and returns the number of bytes it appended.

use vstd::prelude::*;

use crate::codec::{u16_be_bytes, u16_le_bytes, u24_le_bytes, u32_be_bytes, u32_le_bytes, u64_be_bytes};
use crate::address::{inverted, socket_addr_bytes, u128_be_bytes, SocketAddress};
use crate::number::u24;
use vstd::string::StringSliceAdditionalSpecFns;

verus! {

/// Appends one byte.
pub fn write_u8(buf: &mut Vec<u8>, b: u8) -> (n: usize)
    ensures
        final(buf)@ == old(buf)@.push(b),
        n == 1,
{
    buf.push(b);
    1
}

/// Appends all bytes of `b`.
pub fn write_bytes(buf: &mut Vec<u8>, b: &[u8]) -> (n: usize)
    ensures
        final(buf)@ == old(buf)@ + b@,
        n == b@.len(),
{
    let mut i: usize = 0;
    while i < b.len()
        invariant
            i <= b@.len(),
            buf@ == old(buf)@ + b@.take(i as int),
        decreases b@.len() - i,
    {
        buf.push(b[i]);
        i = i + 1;
        assert(buf@ =~= old(buf)@ + b@.take(i as int));
    }
    assert(b@.take(b@.len() as int) =~= b@);
    b.len()
}

/// Appends a little-endian `u16`.
pub fn write_u16(buf: &mut Vec<u8>, v: u16) -> (n: usize)
    ensures
        final(buf)@ == old(buf)@ + u16_le_bytes(v),
        n == 2,
{
    buf.push(v as u8);
    buf.push((v >> 8u16) as u8);
    assert(buf@ =~= old(buf)@ + u16_le_bytes(v));
    2
}

/// Appends a big-endian `u16`.
pub fn write_u16_be(buf: &mut Vec<u8>, v: u16) -> (n: usize)
    ensures
        final(buf)@ == old(buf)@ + u16_be_bytes(v),
        n == 2,
{
    buf.push((v >> 8u16) as u8);
    buf.push(v as u8);
    assert(buf@ =~= old(buf)@ + u16_be_bytes(v));
    2
}

/// Appends a little-endian 24-bit number.
pub fn write_u24(buf: &mut Vec<u8>, v: u24) -> (n: usize)
    ensures
        final(buf)@ == old(buf)@ + u24_le_bytes(v@ as u32),
        n == 3,
{
    let bytes = v.to_le_bytes();
    buf.push(bytes[0]);
    buf.push(bytes[1]);
    buf.push(bytes[2]);
    assert(buf@ =~= old(buf)@ + u24_le_bytes(v@ as u32));
    3
}

/// Appends a little-endian `u32`.
pub fn write_u32(buf: &mut Vec<u8>, v: u32) -> (n: usize)
    ensures
        final(buf)@ == old(buf)@ + u32_le_bytes(v),
        n == 4,
{
    buf.push(v as u8);
    buf.push((v >> 8u32) as u8);
    buf.push((v >> 16u32) as u8);
    buf.push((v >> 24u32) as u8);
    assert(buf@ =~= old(buf)@ + u32_le_bytes(v));
    4
}

/// Appends a big-endian `u32`.
pub fn write_u32_be(buf: &mut Vec<u8>, v: u32) -> (n: usize)
    ensures
        final(buf)@ == old(buf)@ + u32_be_bytes(v),
        n == 4,
{
    buf.push((v >> 24u32) as u8);
    buf.push((v >> 16u32) as u8);
    buf.push((v >> 8u32) as u8);
    buf.push(v as u8);
    assert(buf@ =~= old(buf)@ + u32_be_bytes(v));
    4
}

/// Appends a big-endian `u64`.
pub fn write_u64_be(buf: &mut Vec<u8>, v: u64) -> (n: usize)
    ensures
        final(buf)@ == old(buf)@ + u64_be_bytes(v),
        n == 8,
{
    buf.push((v >> 56u64) as u8);
    buf.push((v >> 48u64) as u8);
    buf.push((v >> 40u64) as u8);
    buf.push((v >> 32u64) as u8);
    buf.push((v >> 24u64) as u8);
    buf.push((v >> 16u64) as u8);
    buf.push((v >> 8u64) as u8);
    buf.push(v as u8);
    assert(buf@ =~= old(buf)@ + u64_be_bytes(v));
    8
}

/// Appends the big-endian bit pattern of an IEEE 754 single-precision
/// number.
pub fn write_f32_be(buf: &mut Vec<u8>, bits: u32) -> (n: usize)
    ensures
        final(buf)@ == old(buf)@ + u32_be_bytes(bits),
        n == 4,
{
    write_u32_be(buf, bits)
}

/// Appends `count` zero bytes.
pub fn write_zero_padding(buf: &mut Vec<u8>, count: u16) -> (n: usize)
    ensures
        final(buf)@ == old(buf)@ + Seq::new(count as nat, |i: int| 0u8),
        n == count,
{
    let mut i: u16 = 0;
    while i < count
        invariant
            i <= count,
            buf@ == old(buf)@ + Seq::new(i as nat, |j: int| 0u8),
        decreases count - i,
    {
        buf.push(0);
        i = i + 1;
        assert(buf@ =~= old(buf)@ + Seq::new(i as nat, |j: int| 0u8));
    }
    count as usize
}

/// Appends a string as a big-endian `u16` length followed by its UTF-8
/// bytes. The length is taken modulo 2^16.
pub fn write_fixed_string(buf: &mut Vec<u8>, s: &str) -> (n: usize)
    requires
        s.spec_bytes().len() <= usize::MAX - 2,
    ensures
        final(buf)@ == old(buf)@ + u16_be_bytes(s.spec_bytes().len() as u16) + s.spec_bytes(),
        n == 2 + s.spec_bytes().len(),
{
    let bytes = s.as_bytes();
    let a = write_u16_be(buf, #[verifier::truncate] (bytes.len() as u16));
    let b = write_bytes(buf, bytes);
    assert(buf@ =~= old(buf)@ + u16_be_bytes(s.spec_bytes().len() as u16) + s.spec_bytes());
    a + b
}

/// Appends the encoding of a socket address.
pub fn write_socket_addr(buf: &mut Vec<u8>, addr: &SocketAddress) -> (n: usize)
    ensures
        final(buf)@ == old(buf)@ + socket_addr_bytes(*addr),
        n == socket_addr_bytes(*addr).len(),
{
    match addr {
        SocketAddress::V4 { ip, port } => {
            let ip = *ip;
            write_u8(buf, 4);
            buf.push(!((ip >> 24u32) as u8));
            buf.push(!((ip >> 16u32) as u8));
            buf.push(!((ip >> 8u32) as u8));
            buf.push(!(ip as u8));
            write_u16_be(buf, *port);
            assert(buf@ =~= old(buf)@ + socket_addr_bytes(*addr));
            7
        },
        SocketAddress::V6 { ip, port, flowinfo, scope_id } => {
            write_u8(buf, 6);
            write_u16(buf, 24);
            write_u16_be(buf, *port);
            write_u32(buf, *flowinfo);
            write_u64_be(buf, (*ip >> 64u128) as u64);
            write_u64_be(buf, *ip as u64);
            write_u32(buf, *scope_id);
            assert(buf@ =~= old(buf)@ + socket_addr_bytes(*addr));
            29
        },
    }
}

} // verus!
