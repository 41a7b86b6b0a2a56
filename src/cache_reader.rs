use vstd::prelude::*;

use crate::cache::{read_into, read_len, Cache};
use crate::error::Error;
use crate::source::{clamp_seek, seek_target, SeekFrom, Source};

verus! {

/// A cache presented as a source: a read position over the cache's content.
///
/// Since it is itself a [`Source`], one cache can be built over a reader of
/// another.
pub struct CacheReader<C: Cache> {
    pos: u64,
    cache: C,
}

impl<C: Cache> CacheReader<C> {
    /// A reader over `cache`, positioned at byte zero.
    pub fn new(cache: C) -> (r: Self)
        requires
            cache.wf(),
        ensures
            r.valid(),
            r.reliable() == cache.reliable(),
            r.inner() == cache,
            r.content() == cache.content(),
            r.cursor() == 0,
    {
        CacheReader { pos: 0, cache }
    }

    /// The cache read from.
    pub closed spec fn inner(&self) -> C {
        self.cache
    }

    /// Destroys the reader and gives back its cache.
    pub fn into_inner(self) -> (r: C)
        ensures
            r == self.inner(),
    {
        self.cache
    }

    /// The cache read from.
    pub fn cache(&self) -> (r: &C)
        ensures
            *r == self.inner(),
    {
        &self.cache
    }

    /// The read position, in bytes from the start of the source.
    pub fn position(&self) -> (r: u64)
        ensures
            r == self.cursor(),
            self.valid() ==> r <= self.content().len(),
    {
        self.pos
    }
}

impl<C: Cache> Source for CacheReader<C> {
    closed spec fn content(&self) -> Seq<u8> {
        self.cache.content()
    }

    closed spec fn cursor(&self) -> nat {
        self.pos as nat
    }

    closed spec fn valid(&self) -> bool {
        &&& self.cache.wf()
        &&& self.pos <= self.cache.content().len()
    }

    closed spec fn reliable(&self) -> bool {
        self.cache.reliable()
    }

    /// Saturating: the position lands on the requested offset clamped into
    /// `[0, len]`, and the seek never fails.
    fn seek(&mut self, from: SeekFrom) -> (r: Result<u64, Error>)
        ensures
            r is Ok,
            r->Ok_0 == seek_target(from, old(self).cursor() as int, old(self).content().len() as int),
            final(self).inner() == old(self).inner(),
    {
        let len = self.cache.len();
        self.pos = clamp_seek(from, self.pos, len);
        proof {
            assert(self.pos == seek_target(from, old(self).pos as int, len as int));
        }
        Ok(self.pos)
    }

    /// Reads as much as fits, up to the end of the content; on failure the
    /// position stays.
    fn read(&mut self, buf: &mut [u8]) -> (r: Result<usize, Error>)
        ensures
            final(self).inner().resident() == old(self).inner().resident(),
            final(self).cursor() <= final(self).content().len(),
            old(self).cursor() >= old(self).content().len() || old(buf)@.len() == 0 ==> r is Ok,
            r is Ok ==> r->Ok_0 == read_len(
                old(self).cursor() as int,
                old(buf)@.len() as int,
                old(self).content().len() as int,
            ),
            r is Ok ==> final(buf)@ == read_into(
                old(self).content(),
                old(self).cursor() as int,
                old(buf)@,
            ),
            r is Err ==> final(self).cursor() == old(self).cursor(),
    {
        let ghost before = buf@;
        let len = self.cache.len();
        let n = match self.cache.read(self.pos, buf) {
            Ok(n) => n,
            Err(e) => {
                return Err(e);
            },
        };
        let ghost content = self.cache.content();
        proof {
            assert(len == content.len());
            if n > 0 {
                let head = content.subrange(self.pos as int, self.pos + n);
                let tail = before.subrange(n as int, before.len() as int);
                assert(buf@ == head + tail);
                assert(buf@.subrange(0, n as int) =~= head);
                assert(buf@.subrange(n as int, buf@.len() as int) =~= tail);
            } else {
                assert(buf@.subrange(0, 0) =~= content.subrange(self.pos as int, self.pos as int));
            }
        }
        self.pos = self.pos + n as u64;
        Ok(n)
    }
}

} // verus!
