//! The 24-bit unsigned integer used on the wire for RakNet sequence
//! numbers, message numbers and ordering indices.

use vstd::prelude::*;

use crate::codec::{lemma_u24_bytes_roundtrip, u24_le_bytes, u24_le_value};

verus! {

/// The number of distinct values of a `u24`.
pub open spec fn u24_modulus() -> nat {
    0x1000000
}

/// The largest distance that still counts as "ahead" when two `u24`
/// sequence numbers are compared with wrap-around.
pub open spec fn u24_half_max() -> nat {
    0x7FFFFF
}

/// `(a - b) mod 2^24`, the forward distance from `b` to `a`.
pub open spec fn wrapping_sub_spec(a: nat, b: nat) -> nat {
    ((a + u24_modulus() - b) as int % u24_modulus() as int) as nat
}

/// `(a + b) mod 2^24`.
pub open spec fn wrapping_add_spec(a: nat, b: nat) -> nat {
    (a + b) % u24_modulus()
}

/// `a` lies before `b` on the 24-bit circle: going forward from `b`
/// to `a` takes more than half the circle.
pub open spec fn wrapping_lt_spec(a: nat, b: nat) -> bool {
    wrapping_sub_spec(a, b) > u24_half_max()
}

/// Adding an amount and then subtracting it, both with wrap-around, gives
/// the number back.
pub proof fn lemma_wrapping_add_sub(a: nat, b: nat)
    requires
        a < u24_modulus(),
        b < u24_modulus(),
    ensures
        wrapping_sub_spec(wrapping_add_spec(a, b), b) == a,
{
    let m = u24_modulus() as int;
    let s = wrapping_add_spec(a, b) as int;
    assert(s == if a + b < m { (a + b) as int } else { a + b - m });
}

/// No number lies before itself, and of two numbers that do not lie
/// exactly half the circle apart at most one lies before the other.
pub proof fn lemma_wrapping_lt_asymmetric(a: nat, b: nat)
    requires
        a < u24_modulus(),
        b < u24_modulus(),
        wrapping_sub_spec(a, b) != u24_half_max() + 1,
    ensures
        !wrapping_lt_spec(a, a),
        wrapping_lt_spec(a, b) ==> !wrapping_lt_spec(b, a),
{
    let m = u24_modulus() as int;
    assert(wrapping_sub_spec(a, a) == 0) by {
        assert((a + m - a) as int % m == 0) by (nonlinear_arith)
            requires
                m == 0x1000000,
        ;
    }
    let d1 = wrapping_sub_spec(a, b) as int;
    let d2 = wrapping_sub_spec(b, a) as int;
    assert(d1 == if a >= b { a - b } else { a + m - b });
    assert(d2 == if b >= a { b - a } else { b + m - a });
}

/// A message number of a reliable packet.
pub type MessageNumber = u24;

/// The sequencing index of a sequenced packet.
pub type SequencingIndex = u24;

/// The ordering index of an ordered or sequenced packet.
pub type OrderingIndex = u24;

/// The index of an ordering channel.
pub type OrderingChannelIndex = u8;

/// The sequence number of a datagram.
pub type DatagramSequenceNumber = u24;

/// A 24-bit unsigned integer.
///
/// It is stored as its three bytes, most significant first, so that every
/// stored value is a valid 24-bit number and the derived equality and
/// ordering agree with the numeric ones.
#[allow(non_camel_case_types)]
#[derive(Clone, Copy, Debug, PartialEq, Eq, Structural, PartialOrd, Ord, Hash, Default)]
pub struct u24(u8, u8, u8);

/// The error returned when a value does not fit into 24 bits.
#[derive(Clone, Copy, Debug, PartialEq, Eq, Structural)]
pub struct TryFromIntError;

impl View for u24 {
    type V = nat;

    closed spec fn view(&self) -> nat {
        (self.0 as nat) * 65536 + (self.1 as nat) * 256 + (self.2 as nat)
    }
}

/// Every `u24` value lies below 2^24.
pub broadcast proof fn lemma_u24_bound(x: u24)
    ensures
        #[trigger] x@ < u24_modulus(),
{
}

/// Two `u24` values with the same numeric value are the same value.
pub broadcast proof fn lemma_u24_view_injective(x: u24, y: u24)
    ensures
        #![trigger x@, y@]
        x@ == y@ ==> x == y,
{
}

impl u24 {
    /// The value `v mod 2^24`, as a specification-level constructor.
    pub closed spec fn spec_new(v: nat) -> u24 {
        u24(((v / 65536) % 256) as u8, ((v / 256) % 256) as u8, (v % 256) as u8)
    }

    /// Builds the value `v`, which must fit into 24 bits.
    fn new(v: u32) -> (r: u24)
        requires
            v < 0x1000000,
        ensures
            r@ == v as nat,
            r == u24::spec_new(v as nat),
    {
        proof {
            u24::lemma_spec_new(v as nat);
        }
        u24(((v / 65536) % 256) as u8, ((v / 256) % 256) as u8, (v % 256) as u8)
    }

    /// Rebuilding a value from its numeric value gives the value back.
    pub proof fn lemma_spec_new_view(x: u24)
        ensures
            u24::spec_new(x@) == x,
    {
        u24::lemma_spec_new(x@);
    }

    /// The specification-level constructor yields the given value.
    pub proof fn lemma_spec_new(v: nat)
        requires
            v < u24_modulus(),
        ensures
            u24::spec_new(v)@ == v,
    {
        let hi = (v / 65536) % 256;
        let mid = (v / 256) % 256;
        let lo = v % 256;
        assert(hi * 65536 + mid * 256 + lo == v) by (nonlinear_arith)
            requires
                v < 0x1000000,
                hi == (v / 65536) % 256,
                mid == (v / 256) % 256,
                lo == v % 256,
        ;
    }
}

impl u24 {
    /// The largest value, 2^24 - 1.
    pub fn max_value() -> (r: u24)
        ensures
            r@ == 0xFFFFFF,
    {
        u24(0xFF, 0xFF, 0xFF)
    }

    /// The smallest value, 0.
    pub fn min_value() -> (r: u24)
        ensures
            r@ == 0,
    {
        u24(0, 0, 0)
    }

    /// The value 0.
    pub fn zero() -> (r: u24)
        ensures
            r@ == 0,
    {
        u24(0, 0, 0)
    }

    /// The value 1.
    pub fn one() -> (r: u24)
        ensures
            r@ == 1,
    {
        u24(0, 0, 1)
    }

    /// Half the number space minus one, 2^23 - 1: the largest forward
    /// distance that still counts as "ahead".
    pub fn half_max() -> (r: u24)
        ensures
            r@ == u24_half_max(),
    {
        u24(0x7F, 0xFF, 0xFF)
    }

    /// Builds the value `v mod 2^24`.
    pub fn from_masked_u32(v: u32) -> (r: u24)
        ensures
            r@ == v as nat % u24_modulus(),
    {
        u24::new(v % 0x1000000)
    }

    /// The value as a `u32`.
    pub fn value(self) -> (r: u32)
        ensures
            r as nat == self@,
            r < 0x1000000,
    {
        (self.0 as u32) * 65536 + (self.1 as u32) * 256 + (self.2 as u32)
    }

    /// `(self + rhs) mod 2^24`.
    pub fn wrapping_add(self, rhs: u24) -> (r: u24)
        ensures
            r@ == wrapping_add_spec(self@, rhs@),
    {
        let a = self.value();
        let b = rhs.value();
        u24::new((a + b) % 0x1000000)
    }

    /// `(self - rhs) mod 2^24`.
    pub fn wrapping_sub(self, rhs: u24) -> (r: u24)
        ensures
            r@ == wrapping_sub_spec(self@, rhs@),
    {
        let a = self.value();
        let b = rhs.value();
        u24::new((a + 0x1000000 - b) % 0x1000000)
    }

    /// True when `self` comes before `other` with wrap-around taken into
    /// account (the forward distance from `other` to `self` exceeds half
    /// the number space).
    pub fn wrapping_less_than(self, other: u24) -> (r: bool)
        ensures
            r == wrapping_lt_spec(self@, other@),
    {
        self.wrapping_sub(other).value() > 0x7FFFFF
    }
    /// Builds a value from its three little-endian bytes.
    pub fn from_le_bytes(bytes: [u8; 3]) -> (r: u24)
        ensures
            r@ == u24_le_value(bytes@) as nat,
            r == u24::spec_new(u24_le_value(bytes@) as nat),
    {
        proof {
            lemma_u24_bytes_roundtrip(bytes@);
        }
        u24::new((bytes[0] as u32) | ((bytes[1] as u32) << 8u32) | ((bytes[2] as u32) << 16u32))
    }

    /// Builds a value from its three big-endian bytes.
    pub fn from_be_bytes(bytes: [u8; 3]) -> (r: u24)
        ensures
            r@ == u24_le_value(bytes@.reverse()) as nat,
    {
        proof {
            lemma_u24_bytes_roundtrip(bytes@.reverse());
        }
        u24::new((bytes[2] as u32) | ((bytes[1] as u32) << 8u32) | ((bytes[0] as u32) << 16u32))
    }

    /// The three little-endian bytes of the value.
    pub fn to_le_bytes(self) -> (r: [u8; 3])
        ensures
            r@ == u24_le_bytes(self@ as u32),
    {
        let v = self.value();
        let r = [v as u8, (v >> 8u32) as u8, (v >> 16u32) as u8];
        assert(r@ =~= u24_le_bytes(v));
        r
    }

    /// The three big-endian bytes of the value.
    pub fn to_be_bytes(self) -> (r: [u8; 3])
        ensures
            r@ == u24_le_bytes(self@ as u32).reverse(),
    {
        let v = self.value();
        let r = [(v >> 16u32) as u8, (v >> 8u32) as u8, v as u8];
        assert(r@ =~= u24_le_bytes(v).reverse());
        r
    }
}

impl vstd::std_specs::convert::FromSpecImpl<u8> for u24 {
    open spec fn obeys_from_spec() -> bool {
        true
    }

    closed spec fn from_spec(v: u8) -> u24 {
        u24(0, 0, v)
    }
}

impl From<u8> for u24 {
    fn from(value: u8) -> (r: u24)
        ensures
            r@ == value as nat,
    {
        u24(0, 0, value)
    }
}

impl vstd::std_specs::convert::FromSpecImpl<u16> for u24 {
    open spec fn obeys_from_spec() -> bool {
        true
    }

    closed spec fn from_spec(v: u16) -> u24 {
        u24::spec_new(v as nat)
    }
}

impl From<u16> for u24 {
    fn from(value: u16) -> (r: u24)
        ensures
            r@ == value as nat,
    {
        u24::new(value as u32)
    }
}

impl vstd::std_specs::convert::FromSpecImpl<u24> for u32 {
    open spec fn obeys_from_spec() -> bool {
        true
    }

    open spec fn from_spec(v: u24) -> u32 {
        v@ as u32
    }
}

impl From<u24> for u32 {
    fn from(value: u24) -> (r: u32)
        ensures
            r as nat == value@,
    {
        value.value()
    }
}

impl vstd::std_specs::convert::TryFromSpecImpl<u32> for u24 {
    open spec fn obeys_try_from_spec() -> bool {
        true
    }

    closed spec fn try_from_spec(v: u32) -> Result<u24, TryFromIntError> {
        if v < 0x1000000 {
            Ok(u24::spec_new(v as nat))
        } else {
            Err(TryFromIntError)
        }
    }
}

impl TryFrom<u32> for u24 {
    type Error = TryFromIntError;

    /// Succeeds exactly when the value fits into 24 bits.
    fn try_from(value: u32) -> (r: Result<u24, TryFromIntError>)
        ensures
            r is Ok <==> value < 0x1000000,
            r matches Ok(x) ==> x@ == value as nat,
    {
        if value < 0x1000000 {
            Ok(u24::new(value))
        } else {
            Err(TryFromIntError)
        }
    }
}

impl vstd::std_specs::convert::TryFromSpecImpl<i32> for u24 {
    open spec fn obeys_try_from_spec() -> bool {
        true
    }

    closed spec fn try_from_spec(v: i32) -> Result<u24, TryFromIntError> {
        if 0 <= v < 0x1000000 {
            Ok(u24::spec_new(v as nat))
        } else {
            Err(TryFromIntError)
        }
    }
}

impl TryFrom<i32> for u24 {
    type Error = TryFromIntError;

    /// Succeeds exactly when the value is non-negative and fits into 24 bits.
    fn try_from(value: i32) -> (r: Result<u24, TryFromIntError>)
        ensures
            r is Ok <==> 0 <= value < 0x1000000,
            r matches Ok(x) ==> x@ == value as nat,
    {
        if 0 <= value && value < 0x1000000 {
            Ok(u24::new(value as u32))
        } else {
            Err(TryFromIntError)
        }
    }
}

impl vstd::std_specs::ops::AddSpecImpl for u24 {
    open spec fn obeys_add_spec() -> bool {
        true
    }

    open spec fn add_req(self, rhs: u24) -> bool {
        self@ + rhs@ < u24_modulus()
    }

    closed spec fn add_spec(self, rhs: u24) -> u24 {
        u24::spec_new(self@ + rhs@)
    }
}

impl core::ops::Add for u24 {
    type Output = u24;

    /// Addition that must not leave the 24-bit range.
    fn add(self, rhs: u24) -> (r: u24)
        ensures
            r@ == self@ + rhs@,
    {
        u24::new(self.value() + rhs.value())
    }
}

impl vstd::std_specs::ops::SubSpecImpl for u24 {
    open spec fn obeys_sub_spec() -> bool {
        true
    }

    open spec fn sub_req(self, rhs: u24) -> bool {
        rhs@ <= self@
    }

    closed spec fn sub_spec(self, rhs: u24) -> u24 {
        u24::spec_new((self@ - rhs@) as nat)
    }
}

impl core::ops::Sub for u24 {
    type Output = u24;

    /// Subtraction that must not go below zero.
    fn sub(self, rhs: u24) -> (r: u24)
        ensures
            r@ == self@ - rhs@,
    {
        u24::new(self.value() - rhs.value())
    }
}

impl vstd::std_specs::ops::MulSpecImpl for u24 {
    open spec fn obeys_mul_spec() -> bool {
        true
    }

    open spec fn mul_req(self, rhs: u24) -> bool {
        self@ * rhs@ < u24_modulus()
    }

    closed spec fn mul_spec(self, rhs: u24) -> u24 {
        u24::spec_new(self@ * rhs@)
    }
}

impl core::ops::Mul for u24 {
    type Output = u24;

    /// Multiplication that must not leave the 24-bit range.
    fn mul(self, rhs: u24) -> (r: u24)
        ensures
            r@ == self@ * rhs@,
    {
        let a = self.value();
        let b = rhs.value();
        assert(a * b < 0x1000000);
        u24::new(a * b)
    }
}

impl vstd::std_specs::ops::DivSpecImpl for u24 {
    open spec fn obeys_div_spec() -> bool {
        true
    }

    open spec fn div_req(self, rhs: u24) -> bool {
        rhs@ != 0
    }

    closed spec fn div_spec(self, rhs: u24) -> u24 {
        u24::spec_new(self@ / rhs@)
    }
}

impl core::ops::Div for u24 {
    type Output = u24;

    /// Division by a non-zero divisor.
    fn div(self, rhs: u24) -> (r: u24)
        ensures
            r@ == self@ / rhs@,
    {
        let a = self.value();
        let b = rhs.value();
        assert(a / b <= a) by (nonlinear_arith)
            requires
                b > 0,
        ;
        u24::new(a / b)
    }
}

} // verus!
