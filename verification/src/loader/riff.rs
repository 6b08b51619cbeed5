//! RIFF: a container of chunks, each a four-byte identifier, a four-byte
//! size and a payload of that size.

use vstd::prelude::*;

use crate::endian::le_u32;
use crate::errors::ImageError;
use crate::source::{after, same_bytes, ByteSource};

verus! {

/// The bytes of `RIFF`.
pub open spec fn signature() -> Seq<u8> {
    seq![0x52u8, 0x49, 0x46, 0x46]
}

/// The form type of a container and the number of bytes that its chunks are
/// declared to take: the declared size less the four bytes of the form type,
/// and nothing where it is smaller than those.
pub open spec fn opening(s: Seq<u8>) -> Result<(Seq<u8>, nat), ImageError> {
    if s.len() < 4 {
        Err(ImageError::Io)
    } else if s.take(4) != signature() {
        Err(ImageError::InvalidSignature)
    } else if s.len() < 12 {
        Err(ImageError::Io)
    } else {
        let size = le_u32(s.skip(4));
        Ok((s.subrange(8, 12), if size >= 4 { (size - 4) as nat } else { 0 }))
    }
}

/// The size that the chunk at the front of `s` declares for its payload.
pub open spec fn chunk_size(s: Seq<u8>) -> int
    recommends
        s.len() >= 8,
{
    le_u32(s.skip(4))
}

/// The payload of the chunk at the front of `s`: as many bytes as it
/// declares, or those that are there where the stream ends before.
pub open spec fn payload_of(s: Seq<u8>) -> Seq<u8>
    recommends
        s.len() >= 8,
{
    if chunk_size(s) <= s.len() - 8 {
        s.subrange(8, 8 + chunk_size(s))
    } else {
        s.skip(8)
    }
}

/// What follows the chunk at the front of `s`.
pub open spec fn behind_chunk(s: Seq<u8>) -> Seq<u8>
    recommends
        s.len() >= 8,
{
    after(s.skip(8), chunk_size(s))
}

/// What is left of `remain` declared bytes behind the chunk at the front of
/// `s`: a chunk that claims more than is left leaves nothing.
pub open spec fn remain_behind(remain: nat, s: Seq<u8>) -> nat
    recommends
        s.len() >= 8,
{
    if remain >= chunk_size(s) + 8 {
        (remain - (chunk_size(s) + 8)) as nat
    } else {
        0
    }
}

/// Reads the chunks of a container one by one.
pub struct RiffReader<'a> {
    buffer: ByteSource<'a>,
    form_type: [u8; 4],
    remain: u64,
}

/// One chunk: its identifier, and a source that holds its payload and
/// nothing else.
pub struct Chunk<'a> {
    pub identifier: [u8; 4],
    pub payload: ByteSource<'a>,
}

impl<'a> RiffReader<'a> {
    /// The bytes of the container that no chunk has taken yet.
    pub closed spec fn unread(&self) -> Seq<u8> {
        self.buffer@
    }

    /// All the bytes of the source that the container was opened on.
    pub closed spec fn origin(&self) -> Seq<u8> {
        self.buffer.origin()
    }

    /// The form type that the container's header names.
    pub closed spec fn form(&self) -> Seq<u8> {
        self.form_type@
    }

    /// The number of declared bytes that no chunk has taken yet.
    pub closed spec fn remain(&self) -> nat {
        self.remain as nat
    }

    /// The form type that the container's header names.
    pub fn form_type(&self) -> (form: &[u8; 4])
        ensures
            form@ == self.form(),
    {
        &self.form_type
    }

    /// Reads the header of a container from the unread bytes of `buffer`.
    pub fn open(buffer: ByteSource<'a>) -> (opened: Result<Self, ImageError>)
        ensures
            match opening(buffer@) {
                Ok((form, remain)) => {
                    &&& opened is Ok
                    &&& opened->Ok_0.form() == form
                    &&& opened->Ok_0.remain() == remain
                    &&& opened->Ok_0.unread() == buffer@.skip(12)
                    &&& opened->Ok_0.origin() == buffer.origin()
                },
                Err(e) => opened == Err::<Self, ImageError>(e),
            },
    {
        let mut buffer = buffer;
        let ghost s = buffer@;
        let tag = buffer.read_exact(4)?;
        let expected: [u8; 4] = [0x52, 0x49, 0x46, 0x46];
        assert(expected@ =~= signature());
        if !same_bytes(tag, &expected) {
            return Err(ImageError::InvalidSignature);
        }
        let size = buffer.read_u32_le()?;
        let form = buffer.read_exact(4)?;
        let form_type = [form[0], form[1], form[2], form[3]];
        assert(form_type@ =~= s.subrange(8, 12));
        assert(buffer@ == s.skip(12));
        let remain = (size as u64).saturating_sub(4);
        Ok(RiffReader { buffer, form_type, remain })
    }

    /// Reads the header of the next chunk and passes over its payload, which
    /// the chunk that is returned holds. There is no next chunk once the
    /// declared bytes are used up.
    pub fn read_chunk(&mut self) -> (read: Result<Option<Chunk<'a>>, ImageError>)
        ensures
            final(self).origin() == old(self).origin(),
            final(self).form() == old(self).form(),
            old(self).remain() == 0 ==> {
                &&& read == Ok::<Option<Chunk<'a>>, ImageError>(None)
                &&& final(self).unread() == old(self).unread()
                &&& final(self).remain() == 0
            },
            old(self).remain() > 0 && old(self).unread().len() < 8 ==> {
                &&& read == Err::<Option<Chunk<'a>>, ImageError>(ImageError::Io)
                &&& final(self).unread() == Seq::<u8>::empty()
                &&& final(self).remain() == old(self).remain()
            },
            old(self).remain() > 0 && old(self).unread().len() >= 8 ==> {
                &&& read matches Ok(Some(chunk))
                &&& chunk.identifier@ == old(self).unread().take(4)
                &&& chunk.payload@ == payload_of(old(self).unread())
                &&& chunk.payload.origin() == payload_of(old(self).unread())
                &&& final(self).unread() == behind_chunk(old(self).unread())
                &&& final(self).remain() == remain_behind(old(self).remain(), old(self).unread())
            },
    {
        if self.remain == 0 {
            return Ok(None);
        }
        let ghost s = self.buffer@;
        let tag = self.buffer.read_exact(4)?;
        let size = self.buffer.read_u32_le()?;
        let identifier = [tag[0], tag[1], tag[2], tag[3]];
        assert(identifier@ =~= s.take(4));
        assert(self.buffer@ == s.skip(8));
        self.remain = self.remain.saturating_sub(size as u64 + 8);
        let body = self.buffer.unread();
        let held = if size as u64 <= body.len() as u64 {
            size as usize
        } else {
            body.len()
        };
        let (payload, _) = body.split_at(held);
        assert(payload@ == payload_of(s));
        self.buffer.skip(size as u64);
        Ok(Some(Chunk { identifier, payload: ByteSource::new(payload) }))
    }

    /// Gives the source back, read as far as the chunks went.
    pub fn into_inner(self) -> (buffer: ByteSource<'a>)
        ensures
            buffer@ == self.unread(),
            buffer.origin() == self.origin(),
    {
        self.buffer
    }
}

impl<'a> Chunk<'a> {
    /// The four bytes that name the kind of the chunk.
    pub fn identifier(&self) -> (identifier: &[u8; 4])
        ensures
            *identifier == self.identifier,
    {
        &self.identifier
    }
}

} // verus!
