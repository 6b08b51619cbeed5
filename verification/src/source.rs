//! The byte source that the decoders read: a buffer in memory with a read
//! position that moves forward and can be set back to the start.

use vstd::prelude::*;

use crate::endian::{
    be_u16, be_u32, le_i16, le_i32, le_u16, le_u32, read_i16_le, read_i32_le, read_u16_be,
    read_u16_le, read_u32_be, read_u32_le,
};
use crate::errors::ImageError;

verus! {

/// What reading a value off the front of a stream gives: the value and the
/// bytes behind it, or the reason why there is none.
pub type Parsed<T> = Result<(T, Seq<u8>), ImageError>;

/// What is left of `s` behind its first `n` bytes. Passing over more than
/// there is leaves nothing.
pub open spec fn after(s: Seq<u8>, n: int) -> Seq<u8>
    recommends
        0 <= n,
{
    if n <= s.len() {
        s.skip(n)
    } else {
        Seq::empty()
    }
}

/// Whether a decoder that returned `result` and left `rest` unread did what
/// `parsed` says of the bytes it was given. Where reading fails, nothing is
/// said of how far the source was read.
pub open spec fn agrees<T>(result: Result<T, ImageError>, rest: Seq<u8>, parsed: Parsed<T>) -> bool {
    match parsed {
        Ok((value, behind)) => result == Ok::<T, ImageError>(value) && rest == behind,
        Err(e) => result == Err::<T, ImageError>(e),
    }
}

/// Whether reading a longer stream gave what reading a stream that it
/// starts with gave. Where the shorter one was read to a value, the longer
/// one is read to the same value, and what is left of it starts with what
/// was left of the shorter. Where the shorter one broke a rule of its
/// format, the longer one breaks the same. Where the shorter one ended too
/// early, nothing is said.
pub open spec fn carries_over<T>(short: Parsed<T>, long: Parsed<T>) -> bool {
    match short {
        Ok((value, rest)) => long matches Ok((same, longer)) && same == value && rest.is_prefix_of(
            longer,
        ),
        Err(ImageError::Io) => true,
        Err(e) => long == Err::<(T, Seq<u8>), ImageError>(e),
    }
}

/// A stream and a longer one that starts with it have the same bytes as far
/// as the shorter goes, and what is left of the longer behind any number of
/// bytes starts with what is left of the shorter.
pub proof fn lemma_prefix_parts(s: Seq<u8>, t: Seq<u8>, n: int)
    requires
        s.is_prefix_of(t),
        0 <= n,
    ensures
        after(s, n).is_prefix_of(after(t, n)),
        n <= s.len() ==> s.take(n) == t.take(n) && s.skip(n).is_prefix_of(t.skip(n)),
        forall|i: int| 0 <= i < s.len() ==> s[i] == t[i],
{
    assert forall|i: int| 0 <= i < s.len() implies s[i] == t[i] by {
        assert(s[i] == t.subrange(0, s.len() as int)[i]);
    }
    if n <= s.len() {
        assert(s.take(n) =~= t.take(n));
        assert(s.skip(n) =~= t.skip(n).subrange(0, s.len() - n));
    }
}

/// A buffer of bytes and the part of it that has not been read yet.
#[derive(Clone, Copy, Debug)]
pub struct ByteSource<'a> {
    whole: &'a [u8],
    rest: &'a [u8],
}

impl<'a> View for ByteSource<'a> {
    type V = Seq<u8>;

    /// The bytes that have not been read yet.
    closed spec fn view(&self) -> Seq<u8> {
        self.rest@
    }
}

impl<'a> ByteSource<'a> {
    /// All the bytes of the buffer, read or not.
    pub closed spec fn origin(&self) -> Seq<u8> {
        self.whole@
    }

    /// The unread bytes can be counted in a `usize`.
    pub proof fn lemma_unread_fits(&self)
        ensures
            self@.len() <= usize::MAX,
    {
        assert(self.rest@.len() == vstd::slice::spec_slice_len(self.rest));
    }

    /// A source over `bytes`, with nothing read.
    pub fn new(bytes: &'a [u8]) -> (source: Self)
        ensures
            source@ == bytes@,
            source.origin() == bytes@,
    {
        ByteSource { whole: bytes, rest: bytes }
    }

    /// Sets the read position back to the first byte of the buffer.
    pub fn rewind(&mut self)
        ensures
            final(self)@ == old(self).origin(),
            final(self).origin() == old(self).origin(),
    {
        self.rest = self.whole;
    }

    /// The number of bytes that have not been read yet.
    pub fn remaining(&self) -> (n: usize)
        ensures
            n == self@.len(),
    {
        self.rest.len()
    }

    /// The bytes that have not been read yet, without reading them.
    pub fn unread(&self) -> (bytes: &'a [u8])
        ensures
            bytes@ == self@,
    {
        self.rest
    }

    /// Passes over the next `n` bytes, or over all that is left where that is
    /// less. This never fails: a read behind the end does.
    pub fn skip(&mut self, n: u64)
        ensures
            final(self)@ == after(old(self)@, n as int),
            final(self).origin() == old(self).origin(),
    {
        let len = self.rest.len();
        let step = if n <= len as u64 {
            n as usize
        } else {
            len
        };
        let (_, behind) = self.rest.split_at(step);
        self.rest = behind;
    }

    /// Reads exactly `n` bytes. Where fewer are left the read fails with
    /// `Io` and the source is left exhausted.
    pub fn read_exact(&mut self, n: usize) -> (read: Result<&'a [u8], ImageError>)
        ensures
            final(self).origin() == old(self).origin(),
            match read {
                Ok(bytes) => {
                    &&& n <= old(self)@.len()
                    &&& bytes@ == old(self)@.take(n as int)
                    &&& final(self)@ == old(self)@.skip(n as int)
                },
                Err(e) => {
                    &&& n > old(self)@.len()
                    &&& e == ImageError::Io
                    &&& final(self)@ == Seq::<u8>::empty()
                },
            },
    {
        let len = self.rest.len();
        if n <= len {
            let (bytes, behind) = self.rest.split_at(n);
            self.rest = behind;
            Ok(bytes)
        } else {
            let (_, behind) = self.rest.split_at(len);
            self.rest = behind;
            Err(ImageError::Io)
        }
    }

    /// Reads one byte.
    pub fn read_u8(&mut self) -> (read: Result<u8, ImageError>)
        ensures
            final(self).origin() == old(self).origin(),
            match read {
                Ok(value) => {
                    &&& 1 <= old(self)@.len()
                    &&& value == old(self)@[0]
                    &&& final(self)@ == old(self)@.skip(1)
                },
                Err(e) => {
                    &&& old(self)@.len() < 1
                    &&& e == ImageError::Io
                    &&& final(self)@ == Seq::<u8>::empty()
                },
            },
    {
        let bytes = self.read_exact(1)?;
        Ok(bytes[0])
    }

    /// Reads two bytes as a number, low byte first.
    pub fn read_u16_le(&mut self) -> (read: Result<u16, ImageError>)
        ensures
            final(self).origin() == old(self).origin(),
            match read {
                Ok(value) => {
                    &&& 2 <= old(self)@.len()
                    &&& value == le_u16(old(self)@)
                    &&& final(self)@ == old(self)@.skip(2)
                },
                Err(e) => {
                    &&& old(self)@.len() < 2
                    &&& e == ImageError::Io
                    &&& final(self)@ == Seq::<u8>::empty()
                },
            },
    {
        let bytes = self.read_exact(2)?;
        Ok(read_u16_le(bytes))
    }

    /// Reads two bytes as a number, high byte first.
    pub fn read_u16_be(&mut self) -> (read: Result<u16, ImageError>)
        ensures
            final(self).origin() == old(self).origin(),
            match read {
                Ok(value) => {
                    &&& 2 <= old(self)@.len()
                    &&& value == be_u16(old(self)@)
                    &&& final(self)@ == old(self)@.skip(2)
                },
                Err(e) => {
                    &&& old(self)@.len() < 2
                    &&& e == ImageError::Io
                    &&& final(self)@ == Seq::<u8>::empty()
                },
            },
    {
        let bytes = self.read_exact(2)?;
        Ok(read_u16_be(bytes))
    }

    /// Reads four bytes as a number, low byte first.
    pub fn read_u32_le(&mut self) -> (read: Result<u32, ImageError>)
        ensures
            final(self).origin() == old(self).origin(),
            match read {
                Ok(value) => {
                    &&& 4 <= old(self)@.len()
                    &&& value == le_u32(old(self)@)
                    &&& final(self)@ == old(self)@.skip(4)
                },
                Err(e) => {
                    &&& old(self)@.len() < 4
                    &&& e == ImageError::Io
                    &&& final(self)@ == Seq::<u8>::empty()
                },
            },
    {
        let bytes = self.read_exact(4)?;
        Ok(read_u32_le(bytes))
    }

    /// Reads four bytes as a number, high byte first.
    pub fn read_u32_be(&mut self) -> (read: Result<u32, ImageError>)
        ensures
            final(self).origin() == old(self).origin(),
            match read {
                Ok(value) => {
                    &&& 4 <= old(self)@.len()
                    &&& value == be_u32(old(self)@)
                    &&& final(self)@ == old(self)@.skip(4)
                },
                Err(e) => {
                    &&& old(self)@.len() < 4
                    &&& e == ImageError::Io
                    &&& final(self)@ == Seq::<u8>::empty()
                },
            },
    {
        let bytes = self.read_exact(4)?;
        Ok(read_u32_be(bytes))
    }

    /// Reads two bytes as a signed number, low byte first.
    pub fn read_i16_le(&mut self) -> (read: Result<i16, ImageError>)
        ensures
            final(self).origin() == old(self).origin(),
            match read {
                Ok(value) => {
                    &&& 2 <= old(self)@.len()
                    &&& value == le_i16(old(self)@)
                    &&& final(self)@ == old(self)@.skip(2)
                },
                Err(e) => {
                    &&& old(self)@.len() < 2
                    &&& e == ImageError::Io
                    &&& final(self)@ == Seq::<u8>::empty()
                },
            },
    {
        let bytes = self.read_exact(2)?;
        Ok(read_i16_le(bytes))
    }

    /// Reads four bytes as a signed number, low byte first.
    pub fn read_i32_le(&mut self) -> (read: Result<i32, ImageError>)
        ensures
            final(self).origin() == old(self).origin(),
            match read {
                Ok(value) => {
                    &&& 4 <= old(self)@.len()
                    &&& value == le_i32(old(self)@)
                    &&& final(self)@ == old(self)@.skip(4)
                },
                Err(e) => {
                    &&& old(self)@.len() < 4
                    &&& e == ImageError::Io
                    &&& final(self)@ == Seq::<u8>::empty()
                },
            },
    {
        let bytes = self.read_exact(4)?;
        Ok(read_i32_le(bytes))
    }
}

/// Whether `bytes` is exactly `pattern`.
pub fn same_bytes(bytes: &[u8], pattern: &[u8]) -> (same: bool)
    ensures
        same == (bytes@ == pattern@),
{
    if bytes.len() != pattern.len() {
        return false;
    }
    let mut i: usize = 0;
    while i < bytes.len()
        invariant
            i <= bytes@.len(),
            bytes@.len() == pattern@.len(),
            bytes@.take(i as int) == pattern@.take(i as int),
        decreases bytes@.len() - i,
    {
        if bytes[i] != pattern[i] {
            return false;
        }
        assert(bytes@.take(i + 1) == bytes@.take(i as int).push(bytes@[i as int]));
        assert(pattern@.take(i + 1) == pattern@.take(i as int).push(pattern@[i as int]));
        i += 1;
    }
    assert(bytes@.take(i as int) == bytes@);
    assert(pattern@.take(i as int) == pattern@);
    true
}

} // verus!
