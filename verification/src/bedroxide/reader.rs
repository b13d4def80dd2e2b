//! A cursor over the bytes of Bedrock packets.

use vstd::prelude::*;

use crate::bedroxide::error::Error;
use crate::codec::{u32_be_value, u32_le_value};

verus! {

/// Reading a VarInt from `s` whose earlier 7-bit groups gave `acc` and
/// took `bits` bits: the value and what is left, or the error. Each byte
/// gives its low 7 bits, least significant group first, until a byte
/// without the high bit. A fifth byte (from bit 28 on) holds the top four
/// bits of a `u32` and ends the number: when it has the high bit or sets
/// a bit above bit 31, the number does not fit a `u32` and is too large.
pub open spec fn spec_varint(s: Seq<u8>, acc: u32, bits: u32) -> Result<(u32, Seq<u8>), VarIntError>
    decreases s.len(),
{
    if s.len() == 0 {
        Err(VarIntError::EndOfData)
    } else {
        let b = s[0];
        if bits >= 28 {
            if b & 0xf0 != 0 {
                Err(VarIntError::TooLarge)
            } else {
                Ok((acc | ((b as u32) << 28u32), s.drop_first()))
            }
        } else {
            let value = acc | (((b & 0x7f) as u32) << bits);
            if b & 0x80 == 0 {
                Ok((value, s.drop_first()))
            } else {
                spec_varint(s.drop_first(), value, (bits + 7) as u32)
            }
        }
    }
}

/// How reading a VarInt can fail.
#[derive(Clone, Copy, Debug, PartialEq, Eq, Structural)]
pub enum VarIntError {
    /// The bytes ran out.
    EndOfData,
    /// The number takes more than 32 bits.
    TooLarge,
}

/// The message of the I/O error at the end of the data.
pub open spec fn end_of_data_message() -> Seq<char> {
    "failed to fill whole buffer"@
}

/// A cursor over Bedrock packet bytes.
pub struct BedrockReader<'a> {
    data: &'a [u8],
    pos: usize,
}

impl<'a> View for BedrockReader<'a> {
    type V = Seq<u8>;

    /// The bytes that are left to read.
    closed spec fn view(&self) -> Seq<u8> {
        self.data@.subrange(self.pos as int, self.data@.len() as int)
    }
}

impl<'a> BedrockReader<'a> {
    #[verifier::type_invariant]
    closed spec fn inv(self) -> bool {
        self.pos <= self.data@.len()
    }

    /// All the bytes, read or not.
    pub closed spec fn spec_data(&self) -> Seq<u8> {
        self.data@
    }

    /// A reader positioned at the start of `data`.
    pub fn new(data: &'a [u8]) -> (r: BedrockReader<'a>)
        ensures
            r@ == data@,
            r.spec_data() == data@,
    {
        let r = BedrockReader { data, pos: 0 };
        assert(r@ =~= data@);
        r
    }

    /// The error reading past the end of the data gives.
    pub(crate) fn end_of_data() -> (r: Error)
        ensures
            r matches Error::IoError(m) && m@ == end_of_data_message(),
    {
        proof {
            reveal_strlit("failed to fill whole buffer");
        }
        Error::IoError("failed to fill whole buffer".to_owned())
    }

    /// Reads one byte. At the end of the data it fails with the I/O error
    /// of reading past the end.
    pub fn read_u8(&mut self) -> (r: Result<u8, Error>)
        ensures
            final(self).spec_data() == old(self).spec_data(),
            old(self)@.len() >= 1 ==> (r matches Ok(b) && b == old(self)@[0] && final(self)@ == old(self)@.drop_first()),
            old(self)@.len() == 0 ==> (r matches Err(Error::IoError(m)) && m@ == end_of_data_message()
                && final(self)@ == old(self)@),
    {
        proof {
            use_type_invariant(&*self);
        }
        if self.pos < self.data.len() {
            let b = self.data[self.pos];
            self.pos = self.pos + 1;
            assert(self@ =~= old(self)@.drop_first());
            Ok(b)
        } else {
            Err(Self::end_of_data())
        }
    }

    /// Reads four bytes. When fewer are left it fails with the I/O error of
    /// reading past the end and the rest of the data is skipped.
    fn read_4(&mut self) -> (r: Result<&'a [u8], Error>)
        ensures
            final(self).spec_data() == old(self).spec_data(),
            old(self)@.len() >= 4 ==> (r matches Ok(s) && s@ == old(self)@.take(4) && final(self)@ == old(self)@.skip(4)),
            old(self)@.len() < 4 ==> (r matches Err(Error::IoError(m)) && m@ == end_of_data_message()
                && final(self)@.len() == 0),
    {
        proof {
            use_type_invariant(&*self);
        }
        if self.data.len() - self.pos >= 4 {
            let s = &self.data[self.pos..self.pos + 4];
            self.pos = self.pos + 4;
            assert(s@ =~= old(self)@.take(4));
            assert(self@ =~= old(self)@.skip(4));
            Ok(s)
        } else {
            self.pos = self.data.len();
            assert(self@.len() == 0);
            Err(Self::end_of_data())
        }
    }

    /// Reads a big-endian `u32`.
    pub fn read_u32_be(&mut self) -> (r: Result<u32, Error>)
        ensures
            final(self).spec_data() == old(self).spec_data(),
            old(self)@.len() >= 4 ==> (r matches Ok(v) && v == u32_be_value(old(self)@.take(4))
                && final(self)@ == old(self)@.skip(4)),
            old(self)@.len() < 4 ==> (r matches Err(Error::IoError(m)) && m@ == end_of_data_message()
                && final(self)@.len() == 0),
    {
        let s = self.read_4()?;
        Ok((s[3] as u32) | ((s[2] as u32) << 8u32) | ((s[1] as u32) << 16u32) | ((s[0] as u32)
            << 24u32))
    }

    /// Reads a little-endian `u32`.
    pub fn read_u32_le(&mut self) -> (r: Result<u32, Error>)
        ensures
            final(self).spec_data() == old(self).spec_data(),
            old(self)@.len() >= 4 ==> (r matches Ok(v) && v == u32_le_value(old(self)@.take(4))
                && final(self)@ == old(self)@.skip(4)),
            old(self)@.len() < 4 ==> (r matches Err(Error::IoError(m)) && m@ == end_of_data_message()
                && final(self)@.len() == 0),
    {
        let s = self.read_4()?;
        Ok((s[0] as u32) | ((s[1] as u32) << 8u32) | ((s[2] as u32) << 16u32) | ((s[3] as u32)
            << 24u32))
    }

    /// Reads `length` bytes and returns them. Fails with
    /// `NotAllBytesRead`, reading nothing, when fewer are left.
    pub fn read_bytes_as_slice(&mut self, length: usize) -> (r: Result<&'a [u8], Error>)
        ensures
            final(self).spec_data() == old(self).spec_data(),
            length <= old(self)@.len() ==> (r matches Ok(s) && s@ == old(self)@.take(length as int)
                && final(self)@ == old(self)@.skip(length as int)),
            length > old(self)@.len() ==> (r matches Err(Error::NotAllBytesRead) && final(self)@ == old(self)@),
    {
        proof {
            use_type_invariant(&*self);
        }
        let pos = self.pos;
        if length > self.data.len() - pos {
            return Err(Error::NotAllBytesRead);
        }
        self.pos = pos + length;
        let s = &self.data[pos..pos + length];
        assert(s@ =~= old(self)@.take(length as int));
        assert(self@ =~= old(self)@.skip(length as int));
        Ok(s)
    }

    /// Reads a VarInt of at most 32 bits (see `spec_varint`). A number
    /// that does not fit a `u32` fails with `VarIntTooLarge`; running out of bytes
    /// fails with the I/O error of reading past the end.
    pub fn read_varint_to_u32(&mut self) -> (r: Result<u32, Error>)
        ensures
            final(self).spec_data() == old(self).spec_data(),
            match spec_varint(old(self)@, 0, 0) {
                Ok((v, rest)) => r matches Ok(x) && x == v && final(self)@ == rest,
                Err(VarIntError::TooLarge) => r matches Err(Error::VarIntTooLarge),
                Err(VarIntError::EndOfData) => r matches Err(Error::IoError(m)) && m@
                    == end_of_data_message(),
            },
    {
        let mut result: u32 = 0;
        let mut bits: u32 = 0;
        loop
            invariant_except_break
                bits <= 28,
                bits % 7 == 0,
                spec_varint(old(self)@, 0, 0) == spec_varint(self@, result, bits),
            invariant
                self.spec_data() == old(self).spec_data(),
            ensures
                spec_varint(old(self)@, 0, 0) == Ok::<(u32, Seq<u8>), VarIntError>((result, self@)),
            decreases self@.len(),
        {
            let ghost before = self@;
            let b = self.read_u8()?;
            if bits >= 28 {
                if b & 0xf0 != 0 {
                    return Err(Error::VarIntTooLarge);
                }
                result = result | ((b as u32) << 28u32);
                break;
            }
            result = result | (((b & 0x7f) as u32) << bits);
            bits = bits + 7;
            if b & 0x80 == 0 {
                break;
            }
            assert(self@ == before.drop_first());
        }
        Ok(result)
    }

    /// Whether more than one byte is left. (The last byte is never
    /// considered.)
    pub fn has_more(&self) -> (r: bool)
        requires
            self.spec_data().len() > 0,
        ensures
            r == (self@.len() > 1),
    {
        proof {
            use_type_invariant(self);
        }
        self.pos < self.data.len() - 1
    }
}

} // verus!
