use vstd::prelude::*;

use crate::cache::{read_into, read_len};
use crate::error::Error;

verus! {

/// Where a seek is measured from.
pub enum SeekFrom {
    /// An offset from the first byte.
    Start(u64),
    /// An offset from one past the last byte.
    End(i64),
    /// An offset from the current position.
    Current(i64),
}

/// The position a saturating seek lands on: the requested offset, clamped
/// into `[0, len]`.
pub open spec fn seek_target(from: SeekFrom, cursor: int, len: int) -> int {
    let raw = match from {
        SeekFrom::Start(o) => o as int,
        SeekFrom::End(o) => len + o,
        SeekFrom::Current(o) => cursor + o,
    };
    if raw < 0 {
        0
    } else if raw > len {
        len
    } else {
        raw
    }
}

/// What every successful seek of a source must give: the new position is the
/// result, and the seeks that the caches issue land where asked.
pub open spec fn seek_lands(from: SeekFrom, cursor: int, len: int, n: int) -> bool {
    match from {
        SeekFrom::Start(o) => o <= len ==> n == o,
        SeekFrom::End(o) => o == 0 ==> n == len,
        SeekFrom::Current(o) => o == 0 ==> n == cursor,
    }
}

/// What a successful read of `n` bytes into a buffer must give: the next `n`
/// bytes of the content at the start of the buffer, the rest untouched, and
/// zero only for an empty buffer or at the end of the content.
pub open spec fn read_delivers(
    content: Seq<u8>,
    cursor: int,
    before: Seq<u8>,
    after: Seq<u8>,
    n: int,
) -> bool {
    &&& 0 <= n <= before.len()
    &&& after.len() == before.len()
    &&& n > 0 ==> cursor + n <= content.len()
    &&& after.subrange(0, n) == content.subrange(cursor, cursor + n)
    &&& after.subrange(n, after.len() as int) == before.subrange(n, before.len() as int)
    &&& n == 0 ==> (before.len() == 0 || cursor >= content.len())
}

/// A byte source with a read position: what the caches are built over.
///
/// Its content is fixed for the life of the value; reads and seeks move the
/// position only. A source describes itself through `content`, `cursor` and
/// `valid`; one that does not is never valid, and then no contract of this
/// library says anything about caches built over it.
pub trait Source: Sized {
    /// The bytes of the source.
    open spec fn content(&self) -> Seq<u8> {
        Seq::empty()
    }

    /// The current read position.
    open spec fn cursor(&self) -> nat {
        0
    }

    /// The source is in a usable state and keeps the contracts below.
    open spec fn valid(&self) -> bool {
        false
    }

    /// Seeks and reads on this source never fail.
    open spec fn reliable(&self) -> bool {
        false
    }

    /// Moves the read position.
    fn seek(&mut self, from: SeekFrom) -> (r: Result<u64, Error>)
        requires
            old(self).valid(),
        ensures
            final(self).valid(),
            final(self).content() == old(self).content(),
            final(self).reliable() == old(self).reliable(),
            old(self).reliable() ==> r is Ok,
            r is Ok ==> final(self).cursor() == r->Ok_0,
            r is Ok ==> seek_lands(
                from,
                old(self).cursor() as int,
                old(self).content().len() as int,
                r->Ok_0 as int,
            ),
    ;

    /// Reads bytes at the current position into `buf`, returning how many.
    fn read(&mut self, buf: &mut [u8]) -> (r: Result<usize, Error>)
        requires
            old(self).valid(),
        ensures
            final(self).valid(),
            final(self).content() == old(self).content(),
            final(self).reliable() == old(self).reliable(),
            old(self).reliable() ==> r is Ok,
            final(buf)@.len() == old(buf)@.len(),
            r is Ok ==> final(self).cursor() == old(self).cursor() + r->Ok_0,
            r is Ok ==> read_delivers(
                old(self).content(),
                old(self).cursor() as int,
                old(buf)@,
                final(buf)@,
                r->Ok_0 as int,
            ),
    ;
}

/// An in-memory source over a byte vector.
pub struct ByteSource {
    bytes: Vec<u8>,
    pos: u64,
}

impl ByteSource {
    /// A source over `bytes`, positioned at the start.
    pub fn new(bytes: Vec<u8>) -> (r: ByteSource)
        ensures
            r.valid(),
            r.reliable(),
            r.content() == bytes@,
            r.cursor() == 0,
    {
        ByteSource { bytes, pos: 0 }
    }

    /// The current read position.
    pub fn position(&self) -> (r: u64)
        ensures
            r == self.cursor(),
    {
        self.pos
    }

    /// Gives back the bytes.
    pub fn into_bytes(self) -> (r: Vec<u8>)
        ensures
            r@ == self.content(),
    {
        self.bytes
    }
}

impl Source for ByteSource {
    closed spec fn content(&self) -> Seq<u8> {
        self.bytes@
    }

    closed spec fn cursor(&self) -> nat {
        self.pos as nat
    }

    closed spec fn valid(&self) -> bool {
        self.pos <= self.bytes@.len()
    }

    open spec fn reliable(&self) -> bool {
        true
    }

    /// Seeks saturate: the position is clamped into `[0, len]`.
    fn seek(&mut self, from: SeekFrom) -> (r: Result<u64, Error>)
        ensures
            r is Ok,
            r->Ok_0 == seek_target(from, old(self).cursor() as int, old(self).content().len() as int),
    {
        let len = self.bytes.len() as u64;
        self.pos = clamp_seek(from, self.pos, len);
        Ok(self.pos)
    }

    /// Reads as much as fits, up to the end of the bytes.
    fn read(&mut self, buf: &mut [u8]) -> (r: Result<usize, Error>)
        ensures
            r is Ok,
            r->Ok_0 == read_len(
                old(self).cursor() as int,
                old(buf)@.len() as int,
                old(self).content().len() as int,
            ),
            final(buf)@ == read_into(old(self).content(), old(self).cursor() as int, old(buf)@),
    {
        let len = self.bytes.len();
        let start = self.pos as usize;
        let avail = len - start;
        let n: usize = if buf.len() < avail { buf.len() } else { avail };
        let ghost before = buf@;
        let mut i: usize = 0;
        while i < n
            invariant
                i <= n,
                n <= buf@.len(),
                start + n <= len,
                len == self.bytes@.len(),
                buf@.len() == before.len(),
                forall|j: int| 0 <= j < i ==> buf@[j] == self.bytes@[start + j],
                forall|j: int| i <= j < buf@.len() ==> buf@[j] == before[j],
            decreases n - i,
        {
            buf[i] = self.bytes[start + i];
            i = i + 1;
        }
        self.pos = self.pos + n as u64;
        proof {
            assert(buf@.subrange(0, n as int) =~= self.bytes@.subrange(start as int, start + n));
            assert(buf@.subrange(n as int, buf@.len() as int) =~= before.subrange(
                n as int,
                before.len() as int,
            ));
        }
        Ok(n)
    }
}

/// The position a saturating seek lands on, for a source of `len` bytes.
pub(crate) fn clamp_seek(from: SeekFrom, cursor: u64, len: u64) -> (r: u64)
    requires
        cursor <= len,
    ensures
        r == seek_target(from, cursor as int, len as int),
        seek_lands(from, cursor as int, len as int, r as int),
        r <= len,
{
    let raw: i128 = match from {
        SeekFrom::Start(o) => o as i128,
        SeekFrom::End(o) => len as i128 + o as i128,
        SeekFrom::Current(o) => cursor as i128 + o as i128,
    };
    if raw < 0 {
        0
    } else if raw > len as i128 {
        len
    } else {
        raw as u64
    }
}

} // verus!
