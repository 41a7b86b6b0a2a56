use vstd::prelude::*;

use crate::cache::{clamped_end, delivered, lemma_joined_single, Cache, Visitor};
use crate::error::Error;
use crate::source::{SeekFrom, Source};

verus! {

/// How many bytes construction asks of the source per read.
const FILL_STEP: usize = 8192;

/// A cache that holds the whole source in one contiguous buffer.
///
/// The source is read once, at construction, and not touched again until it
/// is given back; every traversal is served as a single chunk.
pub struct FullCache<T: Source> {
    source: T,
    data: Vec<u8>,
}

/// Reads `source` from its current position to its end, appending to `data`.
pub(crate) fn read_to_end<T: Source>(source: &mut T, data: &mut Vec<u8>) -> (r: Result<(), Error>)
    requires
        old(source).valid(),
        old(source).cursor() <= old(source).content().len(),
        old(data)@ == old(source).content().subrange(0, old(source).cursor() as int),
    ensures
        final(source).valid(),
        final(source).content() == old(source).content(),
        final(source).reliable() == old(source).reliable(),
        old(source).reliable() ==> r is Ok,
        r is Ok ==> final(data)@ == old(source).content(),
{
    let mut buf: Vec<u8> = vec![0u8; FILL_STEP];
    loop
        invariant
            source.valid(),
            source.content() == old(source).content(),
            source.reliable() == old(source).reliable(),
            source.cursor() <= source.content().len(),
            data@ == source.content().subrange(0, source.cursor() as int),
            buf@.len() == FILL_STEP,
        decreases source.content().len() - source.cursor(),
    {
        let n = source.read(buf.as_mut_slice())?;
        if n == 0 {
            proof {
                assert(data@ =~= source.content());
            }
            return Ok(());
        }
        let got = vstd::slice::slice_subrange(buf.as_slice(), 0, n);
        data.extend_from_slice(got);
        proof {
            assert(data@ =~= source.content().subrange(0, source.cursor() as int));
        }
    }
}

impl<T: Source> FullCache<T> {
    /// Reads the whole of `source` into memory.
    pub fn new(source: T) -> (r: Result<Self, Error>)
        requires
            source.valid(),
        ensures
            source.reliable() ==> r is Ok,
            r is Ok ==> r->Ok_0.wf(),
            r is Ok ==> r->Ok_0.reliable(),
            r is Ok ==> r->Ok_0.rewinds() == source.reliable(),
            r is Ok ==> r->Ok_0.content() == source.content(),
            r is Ok ==> r->Ok_0.resident() == source.content().len(),
    {
        let mut source = source;
        let mut data: Vec<u8> = Vec::new();
        source.seek(SeekFrom::Start(0))?;
        proof {
            assert(data@ =~= source.content().subrange(0, source.cursor() as int));
        }
        read_to_end(&mut source, &mut data)?;
        Ok(FullCache { source, data })
    }
}

impl<T: Source> Cache for FullCache<T> {
    type Source = T;

    closed spec fn wf(&self) -> bool {
        &&& self.source.valid()
        &&& self.data@ == self.source.content()
    }

    closed spec fn content(&self) -> Seq<u8> {
        self.data@
    }

    closed spec fn resident(&self) -> nat {
        self.data@.len()
    }

    /// The source is never read after construction.
    open spec fn reliable(&self) -> bool {
        true
    }

    closed spec fn rewinds(&self) -> bool {
        self.source.reliable()
    }

    fn into_inner(self) -> (r: Result<T, Error>) {
        let mut source = self.source;
        source.seek(SeekFrom::Start(0))?;
        Ok(source)
    }

    fn len(&self) -> (n: u64) {
        self.data.len() as u64
    }

    fn cache_size(&self) -> (n: usize) {
        self.data.len()
    }

    /// The visitor is called exactly once, with the whole clamped range, and
    /// its answer is the result.
    fn traverse_chunks<V: Visitor>(&mut self, start: u64, end: u64, visitor: &mut V) -> (r: Result<
        (),
        Error,
    >)
        ensures
            start < clamped_end(end as int, old(self).content().len() as int) ==> delivered(
                old(visitor).seen(),
                final(visitor).seen(),
            ) == seq![
                old(self).content().subrange(
                    start as int,
                    clamped_end(end as int, old(self).content().len() as int),
                ),
            ],
            start < clamped_end(end as int, old(self).content().len() as int)
                ==> r == final(visitor).answers().last(),
    {
        let len = self.data.len() as u64;
        let stop = if end > len {
            len
        } else {
            end
        };
        if start >= stop {
            proof {
                assert(delivered(old(visitor).seen(), visitor.seen()) =~= Seq::<Seq<u8>>::empty());
                assert(visitor.seen().subrange(0, visitor.seen().len() as int) =~= visitor.seen());
                assert(visitor.answers().subrange(0, visitor.answers().len() as int)
                    =~= visitor.answers());
                assert(visitor.answers().subrange(
                    visitor.answers().len() as int,
                    visitor.answers().len() as int,
                ) =~= Seq::<Result<(), Error>>::empty());
            }
            return Ok(());
        }
        let chunk = vstd::slice::slice_subrange(self.data.as_slice(), start as usize, stop as usize);
        let r = visitor.visit(chunk);
        proof {
            let ans0 = old(visitor).answers();
            let ans = visitor.answers();
            assert(ans.subrange(0, ans0.len() as int) =~= ans0);
            assert(ans.subrange(ans0.len() as int, ans.len() as int) =~= seq![r]);
            let chunks = delivered(old(visitor).seen(), visitor.seen());
            assert(chunks =~= seq![chunk@]);
            lemma_joined_single(chunk@);
            assert(visitor.seen().subrange(0, old(visitor).seen().len() as int) =~= old(
                visitor,
            ).seen());
        }
        r
    }
}

} // verus!
