//! Socket addresses as RakNet encodes them.

use vstd::prelude::*;

use crate::codec::{
    u16_be_bytes, u16_le_bytes, u32_be_bytes, u32_be_value, u32_le_bytes, u64_be_bytes,
    u64_be_value,
};

verus! {

/// An IPv4 or IPv6 socket address. The IP address is held as the number
/// whose big-endian bytes are the address octets.
#[allow(inconsistent_fields)]
#[derive(Clone, Copy, Debug, PartialEq, Eq, Structural, Hash)]
pub enum SocketAddress {
    /// An IPv4 address and port.
    V4 { ip: u32, port: u16 },
    /// An IPv6 address, port, flow information and scope id.
    V6 { ip: u128, port: u16, flowinfo: u32, scope_id: u32 },
}

/// The address family number RakNet writes for IPv6 (`AF_INET6` as
/// Windows numbers it).
pub open spec fn ipv6_family() -> u16 {
    24
}

/// Bitwise inversion of every byte.
pub open spec fn inverted(s: Seq<u8>) -> Seq<u8> {
    s.map_values(|b: u8| !b)
}

/// The sixteen big-endian bytes of a 128-bit value.
pub open spec fn u128_be_bytes(v: u128) -> Seq<u8> {
    u64_be_bytes((v >> 64u128) as u64) + u64_be_bytes(v as u64)
}

/// The 128-bit value of sixteen big-endian bytes.
pub open spec fn u128_be_value(s: Seq<u8>) -> u128 {
    ((u64_be_value(s.take(8)) as u128) << 64u128) | (u64_be_value(s.skip(8)) as u128)
}

/// The encoding of a socket address: the IP version, then for IPv4 the
/// bitwise inverted address octets and the big-endian port; for IPv6 the
/// little-endian family, the big-endian port, the little-endian flow
/// information, the address octets and the little-endian scope id.
pub open spec fn socket_addr_bytes(a: SocketAddress) -> Seq<u8> {
    match a {
        SocketAddress::V4 { ip, port } => seq![4u8] + inverted(u32_be_bytes(ip)) + u16_be_bytes(
            port,
        ),
        SocketAddress::V6 { ip, port, flowinfo, scope_id } => seq![6u8] + u16_le_bytes(
            ipv6_family(),
        ) + u16_be_bytes(port) + u32_le_bytes(flowinfo) + u128_be_bytes(ip) + u32_le_bytes(
            scope_id,
        ),
    }
}

impl SocketAddress {
    /// The IPv4 address with the given octets and port.
    pub fn v4(octets: [u8; 4], port: u16) -> (r: SocketAddress)
        ensures
            r == (SocketAddress::V4 { ip: u32_be_value(octets@), port }),
    {
        let ip: u32 = ((octets[0] as u32) << 24u32) | ((octets[1] as u32) << 16u32) | ((
        octets[2] as u32) << 8u32) | (octets[3] as u32);
        let (a, b, c, d) = (octets[0], octets[1], octets[2], octets[3]);
        assert(((a as u32) << 24u32) | ((b as u32) << 16u32) | ((c as u32) << 8u32) | (d as u32)
            == (d as u32) | ((c as u32) << 8u32) | ((b as u32) << 16u32) | ((a as u32) << 24u32))
            by (bit_vector);
        SocketAddress::V4 { ip, port }
    }

    /// The IPv6 address with the given octets, port, flow information and
    /// scope id.
    pub fn v6(octets: [u8; 16], port: u16, flowinfo: u32, scope_id: u32) -> (r: SocketAddress)
        ensures
            r == (SocketAddress::V6 { ip: u128_be_value(octets@), port, flowinfo, scope_id }),
    {
        let o = octets;
        let hi: u64 = ((o[0] as u64) << 56u64) | ((o[1] as u64) << 48u64) | ((o[2] as u64) << 40u64)
            | ((o[3] as u64) << 32u64) | ((o[4] as u64) << 24u64) | ((o[5] as u64) << 16u64) | ((
        o[6] as u64) << 8u64) | (o[7] as u64);
        let lo: u64 = ((o[8] as u64) << 56u64) | ((o[9] as u64) << 48u64) | ((o[10] as u64)
            << 40u64) | ((o[11] as u64) << 32u64) | ((o[12] as u64) << 24u64) | ((o[13] as u64)
            << 16u64) | ((o[14] as u64) << 8u64) | (o[15] as u64);
        let ip: u128 = ((hi as u128) << 64u128) | (lo as u128);
        assert(hi == u64_be_value(octets@.take(8)));
        assert(lo == u64_be_value(octets@.skip(8)));
        SocketAddress::V6 { ip, port, flowinfo, scope_id }
    }

    /// The port.
    pub fn port(&self) -> (r: u16)
        ensures
            r == match *self {
                SocketAddress::V4 { port, .. } => port,
                SocketAddress::V6 { port, .. } => port,
            },
    {
        match self {
            SocketAddress::V4 { port, .. } => *port,
            SocketAddress::V6 { port, .. } => *port,
        }
    }
}

} // verus!
