use crate::error::DecodeError;
use byteorder::{ByteOrder, LittleEndian};
use vstd::prelude::*;
use vstd::slice::{slice_subrange, slice_to_vec};

verus! {

/// The value of the first two bytes of `s`, least significant byte first.
pub open spec fn le_u16(s: Seq<u8>) -> int
    recommends
        s.len() >= 2,
{
    s[0] + 256 * s[1]
}

/// The value of the first four bytes of `s`, least significant byte first.
pub open spec fn le_u32(s: Seq<u8>) -> int
    recommends
        s.len() >= 4,
{
    s[0] + 256 * s[1] + 65536 * s[2] + 16777216 * s[3]
}

/// Calls `byteorder::LittleEndian::read_u16`. Trusted: the result is taken to be
/// the little-endian value of the first two bytes of `buf`. The outside function
/// panics on a shorter buffer, which the precondition rules out.
#[verifier::external_body]
fn u16_from_le(buf: &[u8]) -> (v: u16)
    requires
        buf@.len() >= 2,
    ensures
        v == le_u16(buf@),
{
    LittleEndian::read_u16(buf)
}

/// Calls `byteorder::LittleEndian::read_u32`. Trusted: the result is taken to be
/// the little-endian value of the first four bytes of `buf`. The outside function
/// panics on a shorter buffer, which the precondition rules out.
#[verifier::external_body]
fn u32_from_le(buf: &[u8]) -> (v: u32)
    requires
        buf@.len() >= 4,
    ensures
        v == le_u32(buf@),
{
    LittleEndian::read_u32(buf)
}

/// A read cursor over a borrowed byte buffer.
///
/// The view of a stream is the sequence of bytes that have not been read yet.
/// Every read either consumes a whole field or, when too few bytes are left,
/// fails with [`DecodeError::Truncated`] and consumes nothing.
#[derive(Clone, Copy)]
pub struct ByteStream<'a> {
    data: &'a [u8],
    pos: usize,
}

impl<'a> View for ByteStream<'a> {
    type V = Seq<u8>;

    closed spec fn view(&self) -> Seq<u8> {
        self.data@.skip(self.pos as int)
    }
}

impl<'a> ByteStream<'a> {
    #[verifier::type_invariant]
    spec fn in_bounds(self) -> bool {
        self.pos <= self.data@.len()
    }

    /// A stream positioned at the first byte of `data`.
    pub fn new(data: &'a [u8]) -> (stream: Self)
        ensures
            stream@ == data@,
    {
        ByteStream { data, pos: 0 }
    }

    /// The number of bytes that have not been read yet.
    pub fn remaining(&self) -> (n: usize)
        ensures
            n == self@.len(),
    {
        proof {
            use_type_invariant(self);
        }
        self.data.len() - self.pos
    }

    /// Whether every byte has been read.
    pub fn is_empty(&self) -> (empty: bool)
        ensures
            empty <==> self@.len() == 0,
    {
        self.remaining() == 0
    }

    /// Reads one byte.
    pub fn read_u8(&mut self) -> (res: Result<u8, DecodeError>)
        ensures
            match res {
                Ok(v) => old(self)@.len() >= 1 && v == old(self)@[0] && final(self)@ == old(
                    self,
                )@.skip(1),
                Err(e) => old(self)@.len() < 1 && e == DecodeError::Truncated && final(self)@
                    == old(self)@,
            },
    {
        proof {
            use_type_invariant(&*self);
        }
        if self.pos < self.data.len() {
            let byte: u8 = self.data[self.pos];
            proof {
                old(self).data@.lemma_seq_skip_skip(old(self).pos as int);
                assert(old(self)@.skip(1) =~= old(self).data@.skip(old(self).pos + 1));
            }
            self.pos = self.pos + 1;
            Ok(byte)
        } else {
            Err(DecodeError::Truncated)
        }
    }

    /// Reads a 16-bit unsigned integer stored least significant byte first.
    pub fn read_u16_le(&mut self) -> (res: Result<u16, DecodeError>)
        ensures
            match res {
                Ok(v) => old(self)@.len() >= 2 && v == le_u16(old(self)@) && final(self)@ == old(
                    self,
                )@.skip(2),
                Err(e) => old(self)@.len() < 2 && e == DecodeError::Truncated && final(self)@
                    == old(self)@,
            },
    {
        proof {
            use_type_invariant(&*self);
        }
        if self.data.len() - self.pos >= 2 {
            let field = slice_subrange(self.data, self.pos, self.pos + 2);
            let value: u16 = u16_from_le(field);
            proof {
                assert(old(self)@.skip(2) =~= old(self).data@.skip(old(self).pos + 2));
            }
            self.pos = self.pos + 2;
            Ok(value)
        } else {
            Err(DecodeError::Truncated)
        }
    }

    /// Reads a 32-bit unsigned integer stored least significant byte first.
    pub fn read_u32_le(&mut self) -> (res: Result<u32, DecodeError>)
        ensures
            match res {
                Ok(v) => old(self)@.len() >= 4 && v == le_u32(old(self)@) && final(self)@ == old(
                    self,
                )@.skip(4),
                Err(e) => old(self)@.len() < 4 && e == DecodeError::Truncated && final(self)@
                    == old(self)@,
            },
    {
        proof {
            use_type_invariant(&*self);
        }
        if self.data.len() - self.pos >= 4 {
            let field = slice_subrange(self.data, self.pos, self.pos + 4);
            let value: u32 = u32_from_le(field);
            proof {
                assert(old(self)@.skip(4) =~= old(self).data@.skip(old(self).pos + 4));
            }
            self.pos = self.pos + 4;
            Ok(value)
        } else {
            Err(DecodeError::Truncated)
        }
    }

    /// Reads exactly `n` bytes. Nothing is allocated when fewer than `n` bytes
    /// are left.
    pub fn read_bytes(&mut self, n: usize) -> (res: Result<Vec<u8>, DecodeError>)
        ensures
            match res {
                Ok(bytes) => old(self)@.len() >= n && bytes@ == old(self)@.take(n as int)
                    && final(self)@ == old(self)@.skip(n as int),
                Err(e) => old(self)@.len() < n && e == DecodeError::Truncated && final(self)@
                    == old(self)@,
            },
    {
        proof {
            use_type_invariant(&*self);
        }
        if self.data.len() - self.pos >= n {
            let field = slice_subrange(self.data, self.pos, self.pos + n);
            let bytes = slice_to_vec(field);
            proof {
                assert(old(self)@.skip(n as int) =~= old(self).data@.skip(old(self).pos + n));
                assert(bytes@ =~= old(self)@.take(n as int));
            }
            self.pos = self.pos + n;
            Ok(bytes)
        } else {
            Err(DecodeError::Truncated)
        }
    }
}

} // verus!
