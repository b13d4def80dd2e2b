//! Hexadecimal dumps of the start of byte sequences, for logging.

use vstd::prelude::*;

use crate::utils::{hex_text, push_hex_byte};

verus! {

/// The first `max_bytes` bytes of `buf` (all of them if there are fewer)
/// as hexadecimal text (see `hex_text`).
pub fn to_hex(buf: &[u8], max_bytes: usize) -> (r: String)
    ensures
        r@ == hex_text(
            if buf@.len() < max_bytes {
                buf@
            } else {
                buf@.take(max_bytes as int)
            },
        ),
{
    let n = if buf.len() < max_bytes {
        buf.len()
    } else {
        max_bytes
    };
    let mut s = String::new();
    let mut i: usize = 0;
    while i < n
        invariant
            n <= buf@.len(),
            i <= n,
            s@ == hex_text(buf@.take(i as int)),
        decreases n - i,
    {
        push_hex_byte(&mut s, buf[i]);
        assert(buf@.take(i as int + 1).drop_last() =~= buf@.take(i as int));
        i = i + 1;
    }
    assert(buf@.take(n as int) =~= if buf@.len() < max_bytes {
        buf@
    } else {
        buf@.take(max_bytes as int)
    });
    s
}

} // verus!
