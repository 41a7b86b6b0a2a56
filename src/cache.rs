use vstd::prelude::*;

use crate::error::Error;
use crate::source::Source;

verus! {

/// The bytes of a run of chunks, in order.
pub open spec fn joined(chunks: Seq<Seq<u8>>) -> Seq<u8>
    decreases chunks.len(),
{
    if chunks.len() == 0 {
        Seq::empty()
    } else {
        joined(chunks.drop_last()) + chunks.last()
    }
}

/// Joining one more chunk appends its bytes.
pub proof fn lemma_joined_push(chunks: Seq<Seq<u8>>, c: Seq<u8>)
    ensures
        joined(chunks.push(c)) == joined(chunks) + c,
{
    assert(chunks.push(c).drop_last() =~= chunks);
}

/// A single chunk joins to itself.
pub proof fn lemma_joined_single(c: Seq<u8>)
    ensures
        joined(seq![c]) == c,
{
    lemma_joined_push(Seq::empty(), c);
    assert(Seq::<Seq<u8>>::empty().push(c) =~= seq![c]);
    assert(joined(Seq::<Seq<u8>>::empty()) + c =~= c);
}

/// The end of a traversal of `[start, end)` over `len` bytes: the end,
/// clamped to the length.
pub open spec fn clamped_end(end: int, len: int) -> int {
    if end > len {
        len
    } else {
        end
    }
}

/// The chunks handed to a visitor during one traversal: those logged after
/// the `before` prefix.
pub open spec fn delivered(before: Seq<Seq<u8>>, after: Seq<Seq<u8>>) -> Seq<Seq<u8>> {
    after.subrange(before.len() as int, after.len() as int)
}

/// What a traversal of `[start, end)` over `content` owes its visitor, whose
/// log went from `before` to `after`. The log only grows; every chunk is
/// non-empty; an empty clamped range is never visited and succeeds; a
/// successful traversal delivers exactly the clamped range, chunk after
/// chunk in ascending order; a failed one delivers a prefix of it.
pub open spec fn traversal_owed(
    content: Seq<u8>,
    start: int,
    end: int,
    before: Seq<Seq<u8>>,
    after: Seq<Seq<u8>>,
    ok: bool,
) -> bool {
    let e = clamped_end(end, content.len() as int);
    let chunks = delivered(before, after);
    &&& before.len() <= after.len()
    &&& after.subrange(0, before.len() as int) == before
    &&& forall|i: int| 0 <= i < chunks.len() ==> #[trigger] chunks[i].len() > 0
    &&& start >= e ==> ok && chunks.len() == 0
    &&& start < e && ok ==> joined(chunks) == content.subrange(start, e)
    &&& start < e && !ok ==> joined(chunks).is_prefix_of(content.subrange(start, e))
}

/// What a traversal owes in its result, given the visitor's answers going
/// from `before` to `after` over `count` chunks: one answer per chunk; no
/// chunk follows a refused one; success only if every chunk was accepted;
/// and a refusal is returned as it was given.
pub open spec fn answers_owed(
    before: Seq<Result<(), Error>>,
    after: Seq<Result<(), Error>>,
    count: int,
    r: Result<(), Error>,
) -> bool {
    let ans = after.subrange(before.len() as int, after.len() as int);
    &&& before.len() <= after.len()
    &&& after.subrange(0, before.len() as int) == before
    &&& ans.len() == count
    &&& forall|i: int| 0 <= i < ans.len() - 1 ==> (#[trigger] ans[i]) is Ok
    &&& r is Ok ==> forall|i: int| 0 <= i < ans.len() ==> (#[trigger] ans[i]) is Ok
    &&& ans.len() > 0 && ans.last() is Err ==> r == ans.last()
}

/// The visitor refused the last chunk of the traversal that took its answers
/// from `before` to `after`.
pub open spec fn refused(before: Seq<Result<(), Error>>, after: Seq<Result<(), Error>>) -> bool {
    after.len() > before.len() && after.last() is Err
}

/// How many bytes a read of a `cap`-byte buffer at `offset` copies out of
/// `len` bytes of content.
pub open spec fn read_len(offset: int, cap: int, len: int) -> int {
    if offset >= len {
        0
    } else if offset + cap > len {
        len - offset
    } else {
        cap
    }
}

/// The buffer `buf` after a read at `offset`: the copied source bytes in
/// front, the rest of the buffer as it was.
pub open spec fn read_into(content: Seq<u8>, offset: int, buf: Seq<u8>) -> Seq<u8> {
    let n = read_len(offset, buf.len() as int, content.len() as int);
    if n == 0 {
        buf
    } else {
        content.subrange(offset, offset + n) + buf.subrange(n, buf.len() as int)
    }
}

/// A receiver of the chunks of a traversal.
///
/// Its log records every chunk it was handed, in order, whether or not it
/// accepted it. A visitor that keeps no log is never ready, and then no
/// contract of this library speaks of what it was handed.
pub trait Visitor: Sized {
    /// The chunks handed to this visitor so far, oldest first.
    open spec fn seen(&self) -> Seq<Seq<u8>> {
        Seq::empty()
    }

    /// The visitor is in a usable state and keeps its log.
    open spec fn ready(&self) -> bool {
        false
    }

    /// The visitor never refuses a chunk.
    open spec fn accepts_all(&self) -> bool {
        false
    }

    /// What the visitor answered so far, one entry per chunk, oldest first.
    open spec fn answers(&self) -> Seq<Result<(), Error>> {
        Seq::empty()
    }

    /// Takes one chunk. An error stops the traversal and is passed on.
    fn visit(&mut self, chunk: &[u8]) -> (r: Result<(), Error>)
        requires
            old(self).ready(),
        ensures
            final(self).ready(),
            final(self).accepts_all() == old(self).accepts_all(),
            old(self).accepts_all() ==> r is Ok,
            final(self).seen() == old(self).seen().push(chunk@),
            final(self).answers() == old(self).answers().push(r),
    ;
}

/// A visitor that appends every chunk it is handed to a byte vector.
pub struct ChunkCollector {
    bytes: Vec<u8>,
    log: Ghost<Seq<Seq<u8>>>,
    replies: Ghost<Seq<Result<(), Error>>>,
}

impl ChunkCollector {
    /// An empty collector.
    pub fn new() -> (r: ChunkCollector)
        ensures
            r.ready(),
            r.accepts_all(),
            r.seen() == Seq::<Seq<u8>>::empty(),
    {
        ChunkCollector { bytes: Vec::new(), log: Ghost(Seq::empty()), replies: Ghost(Seq::empty()) }
    }

    /// The bytes collected so far: the chunks seen, joined.
    pub fn bytes(&self) -> (r: &Vec<u8>)
        requires
            self.ready(),
        ensures
            r@ == joined(self.seen()),
    {
        &self.bytes
    }

    /// Gives back the bytes collected.
    pub fn into_bytes(self) -> (r: Vec<u8>)
        requires
            self.ready(),
        ensures
            r@ == joined(self.seen()),
    {
        self.bytes
    }
}

impl Visitor for ChunkCollector {
    closed spec fn seen(&self) -> Seq<Seq<u8>> {
        self.log@
    }

    closed spec fn ready(&self) -> bool {
        self.bytes@ == joined(self.log@)
    }

    open spec fn accepts_all(&self) -> bool {
        true
    }

    closed spec fn answers(&self) -> Seq<Result<(), Error>> {
        self.replies@
    }

    /// Always accepts.
    fn visit(&mut self, chunk: &[u8]) -> (r: Result<(), Error>) {
        self.bytes.extend_from_slice(chunk);
        self.log = Ghost(self.log@.push(chunk@));
        self.replies = Ghost(self.replies@.push(Ok(())));
        proof {
            assert(self.log@.drop_last() =~= old(self).log@);
            assert(joined(self.log@) == joined(old(self).log@) + chunk@);
            assert(self.bytes@ =~= joined(self.log@));
        }
        Ok(())
    }
}

/// The behaviour common to every cache.
pub trait Cache: Sized {
    /// The type of the source being cached.
    type Source: Source;

    /// The cache is well formed.
    spec fn wf(&self) -> bool;

    /// The bytes of the source, as read at construction.
    spec fn content(&self) -> Seq<u8>;

    /// The number of source bytes held in memory.
    spec fn resident(&self) -> nat;

    /// Traversals never fail but through their visitor: the cache either
    /// holds everything in memory or reads from a reliable source.
    spec fn reliable(&self) -> bool;

    /// Giving the source back cannot fail: the source is reliable.
    spec fn rewinds(&self) -> bool;

    /// Destroys the cache and gives back its source, positioned at zero.
    fn into_inner(self) -> (r: Result<Self::Source, Error>)
        requires
            self.wf(),
        ensures
            self.rewinds() ==> r is Ok,
            r is Ok ==> r->Ok_0.valid(),
            r is Ok ==> r->Ok_0.content() == self.content(),
            r is Ok ==> r->Ok_0.cursor() == 0,
    ;

    /// The length of the source in bytes.
    fn len(&self) -> (n: u64)
        requires
            self.wf(),
        ensures
            n == self.content().len(),
    ;

    /// The number of source bytes held in memory, bookkeeping excluded.
    fn cache_size(&self) -> (n: usize)
        requires
            self.wf(),
        ensures
            n == self.resident(),
    ;

    /// Hands the bytes of `[start, end)`, clamped to the source, to `visitor`
    /// as consecutive non-empty chunks in ascending order, stopping at the
    /// first error.
    fn traverse_chunks<V: Visitor>(&mut self, start: u64, end: u64, visitor: &mut V) -> (r: Result<
        (),
        Error,
    >)
        requires
            old(self).wf(),
            old(visitor).ready(),
        ensures
            final(self).wf(),
            final(self).content() == old(self).content(),
            final(self).resident() == old(self).resident(),
            final(self).reliable() == old(self).reliable(),
            final(self).rewinds() == old(self).rewinds(),
            old(self).reliable() && old(visitor).accepts_all() ==> r is Ok,
            final(visitor).ready(),
            start >= clamped_end(end as int, old(self).content().len() as int) ==> *final(self)
                == *old(self) && *final(visitor) == *old(visitor),
            answers_owed(
                old(visitor).answers(),
                final(visitor).answers(),
                delivered(old(visitor).seen(), final(visitor).seen()).len() as int,
                r,
            ),
            traversal_owed(
                old(self).content(),
                start as int,
                end as int,
                old(visitor).seen(),
                final(visitor).seen(),
                r is Ok,
            ),
    ;

    /// Copies the source bytes from `offset` on into `buffer`, until the
    /// buffer is full or the source ends, and returns how many were copied.
    /// The rest of the buffer is left as it was.
    fn read(&mut self, offset: u64, buffer: &mut [u8]) -> (r: Result<usize, Error>)
        requires
            old(self).wf(),
        ensures
            final(self).wf(),
            final(self).content() == old(self).content(),
            final(self).resident() == old(self).resident(),
            final(self).reliable() == old(self).reliable(),
            final(self).rewinds() == old(self).rewinds(),
            old(self).reliable() ==> r is Ok,
            offset >= old(self).content().len() || old(buffer)@.len() == 0 ==> r is Ok,
            final(buffer)@.len() == old(buffer)@.len(),
            r is Ok ==> r->Ok_0 == read_len(
                offset as int,
                old(buffer)@.len() as int,
                old(self).content().len() as int,
            ),
            r is Ok ==> final(buffer)@ == read_into(old(self).content(), offset as int, old(buffer)@),
    {
        let total = self.len();
        let cap = buffer.len() as u64;
        let end: u64 = if offset > u64::MAX - cap {
            u64::MAX
        } else {
            offset + cap
        };
        let mut sink = ChunkCollector::new();
        let res = self.traverse_chunks(offset, end, &mut sink);
        match res {
            Err(e) => Err(e),
            Ok(()) => {
                let got = sink.bytes();
                let n = got.len();
                let ghost before = buffer@;
                let ghost content = self.content();
                proof {
                    assert(delivered(Seq::empty(), sink.seen()) =~= sink.seen());
                    let len = self.content().len() as int;
                    let e = clamped_end(end as int, len);
                    assert(total == len);
                    if offset < e {
                        assert(got@ == self.content().subrange(offset as int, e));
                        assert(n == e - offset);
                        assert(forall|j: int| 0 <= j < n ==> got@[j] == content[offset + j]);
                    } else {
                        assert(sink.seen().len() == 0);
                        assert(got@ =~= Seq::<u8>::empty());
                    }
                    assert(forall|j: int| 0 <= j < n ==> got@[j] == content[offset + j]);
                }
                let mut i: usize = 0;
                while i < n
                    invariant
                        i <= n,
                        n == got@.len(),
                        n <= buffer@.len(),
                        buffer@.len() == before.len(),
                        forall|j: int| 0 <= j < i ==> buffer@[j] == got@[j],
                        n > 0 ==> offset + n <= content.len(),
                        forall|j: int| 0 <= j < n ==> got@[j] == content[offset + j],
                        forall|j: int| i <= j < buffer@.len() ==> buffer@[j] == before[j],
                    decreases n - i,
                {
                    buffer[i] = got[i];
                    i = i + 1;
                }
                proof {
                    assert forall|j: int| 0 <= j < n implies buffer@[j] == content[offset + j] by {
                        assert(buffer@[j] == got@[j]);
                        assert(got@[j] == content[offset + j]);
                    }
                    assert(content == old(self).content());
                    if n > 0 {
                        assert(buffer@ =~= read_into(content, offset as int, before));
                    } else {
                        assert(buffer@ =~= before);
                    }
                    assert(buffer@.subrange(n as int, buffer@.len() as int) =~= before.subrange(
                        n as int,
                        before.len() as int,
                    ));
                }
                Ok(n)
            }
        }
    }
}

} // verus!
