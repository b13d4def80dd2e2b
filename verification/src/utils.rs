//! Hexadecimal dumps of bytes, for logging.

use std::fmt::Write;
use vstd::prelude::*;

verus! {

/// The uppercase hexadecimal digit of `d` (below 16).
pub open spec fn hex_digit(d: u8) -> char {
    if d < 10 {
        (48 + d) as char
    } else {
        (55 + d) as char
    }
}

/// A byte as two uppercase hexadecimal digits followed by a space.
pub open spec fn hex_chars(b: u8) -> Seq<char> {
    seq![hex_digit(b / 16), hex_digit(b % 16), ' ']
}

/// The bytes, each as two uppercase hexadecimal digits followed by a
/// space.
pub open spec fn hex_text(s: Seq<u8>) -> Seq<char>
    decreases s.len(),
{
    if s.len() == 0 {
        Seq::empty()
    } else {
        hex_text(s.drop_last()) + hex_chars(s.last())
    }
}

/// Appends `write!(s, "{:02X} ", byte)`: the byte as two uppercase
/// hexadecimal digits, zero-padded, and a space. The contract claims what
/// the `std::fmt` documentation says of the `02X` format; writing to a
/// `String` cannot fail.
#[verifier::external_body]
pub(crate) fn push_hex_byte(s: &mut String, byte: u8)
    ensures
        final(s)@ == old(s)@ + hex_chars(byte),
{
    let _ = write!(s, "{:02X} ", byte);
}

/// The bytes of `buf` as hexadecimal text (see `hex_text`).
pub fn to_hex(buf: &[u8]) -> (r: String)
    ensures
        r@ == hex_text(buf@),
{
    let mut s = String::new();
    let mut i: usize = 0;
    while i < buf.len()
        invariant
            i <= buf@.len(),
            s@ == hex_text(buf@.take(i as int)),
        decreases buf@.len() - i,
    {
        push_hex_byte(&mut s, buf[i]);
        assert(buf@.take(i as int + 1).drop_last() =~= buf@.take(i as int));
        i = i + 1;
    }
    assert(buf@.take(i as int) =~= buf@);
    s
}

} // verus!
