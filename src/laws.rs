use vstd::prelude::*;

use crate::cache::{clamped_end, delivered, joined, read_into, traversal_owed};
use crate::swap_cache::paged_chunks;
use vstd::arithmetic::div_mod::{lemma_fundamental_div_mod, lemma_fundamental_div_mod_converse_div};

verus! {

/// Where chunk `i` of a run starts, counted from the start of the run.
pub open spec fn chunk_start(chunks: Seq<Seq<u8>>, i: int) -> int {
    joined(chunks.take(i)).len() as int
}

/// Chunk order: when non-empty chunks join to the bytes of `[start, end)`,
/// each chunk is the bytes between its own start and the next chunk's
/// start, the starts strictly increase, and the last chunk ends at `end`.
pub proof fn lemma_chunks_in_order(content: Seq<u8>, start: int, end: int, chunks: Seq<Seq<u8>>)
    requires
        0 <= start <= end <= content.len(),
        forall|i: int| 0 <= i < chunks.len() ==> #[trigger] chunks[i].len() > 0,
        joined(chunks) == content.subrange(start, end),
    ensures
        forall|i: int|
            0 <= i < chunks.len() ==> #[trigger] chunks[i] == content.subrange(
                start + chunk_start(chunks, i),
                start + chunk_start(chunks, i + 1),
            ),
        forall|i: int|
            0 <= i < chunks.len() ==> #[trigger] chunk_start(chunks, i) < chunk_start(chunks, i + 1),
        start + chunk_start(chunks, chunks.len() as int) == end,
    decreases chunks.len(),
{
    if chunks.len() == 0 {
        assert(chunks.take(0) =~= chunks);
        assert(content.subrange(start, end).len() == 0);
    } else {
        let n = chunks.len() as int;
        let init = chunks.drop_last();
        let c = chunks.last();
        let mid = end - c.len();
        assert(joined(chunks) == joined(init) + c);
        let whole = content.subrange(start, end);
        assert(whole.len() == end - start);
        assert(joined(init).len() + c.len() == end - start);
        assert(mid - start == joined(init).len());
        assert(c =~= whole.subrange(mid - start, end - start));
        assert(joined(init) =~= content.subrange(start, end).subrange(0, mid - start));
        assert(joined(init) =~= content.subrange(start, mid));
        assert(c =~= content.subrange(mid, end));
        assert forall|i: int| 0 <= i < n - 1 implies #[trigger] init[i].len() > 0 by {
            assert(init[i] == chunks[i]);
        }
        lemma_chunks_in_order(content, start, mid, init);
        assert(chunks.take(n - 1) =~= init);
        assert(chunks.take(n) =~= chunks);
        assert forall|i: int| 0 <= i <= n - 1 implies chunk_start(chunks, i) == chunk_start(
            init,
            i,
        ) by {
            assert(chunks.take(i) =~= init.take(i));
        }
        assert forall|i: int| 0 <= i < n implies #[trigger] chunks[i] == content.subrange(
            start + chunk_start(chunks, i),
            start + chunk_start(chunks, i + 1),
        ) && chunk_start(chunks, i) < chunk_start(chunks, i + 1) by {
            if i < n - 1 {
                assert(chunks[i] == init[i]);
                assert(chunk_start(chunks, i + 1) == chunk_start(init, i + 1));
            } else {
                assert(chunk_start(chunks, i) == mid - start);
                assert(chunk_start(chunks, i + 1) == end - start);
            }
        }
    }
}

/// Reading to the end: a successful traversal from a `start` inside the
/// source up to or past its end delivers exactly the bytes from `start` to
/// the end, `len - start` of them, and nothing past the end.
pub proof fn lemma_traverse_to_end(
    content: Seq<u8>,
    start: int,
    end: int,
    before: Seq<Seq<u8>>,
    after: Seq<Seq<u8>>,
)
    requires
        0 <= start < content.len(),
        end >= content.len(),
        traversal_owed(content, start, end, before, after, true),
    ensures
        joined(delivered(before, after)) == content.subrange(start, content.len() as int),
        joined(delivered(before, after)).len() == content.len() - start,
{
}

/// Round trip: the chunks of a successful traversal of the whole source,
/// concatenated, are the source.
pub proof fn lemma_round_trip(content: Seq<u8>, before: Seq<Seq<u8>>, after: Seq<Seq<u8>>)
    requires
        traversal_owed(content, 0, content.len() as int, before, after, true),
    ensures
        joined(delivered(before, after)) == content,
{
    if content.len() == 0 {
        assert(delivered(before, after).len() == 0);
        assert(joined(delivered(before, after)) =~= content);
    } else {
        assert(content.subrange(0, content.len() as int) =~= content);
    }
}

/// Idempotent reads: reading at the same offset into the buffer that a
/// first read left gives that same buffer again.
pub proof fn lemma_read_idempotent(content: Seq<u8>, offset: int, buf: Seq<u8>)
    requires
        0 <= offset,
    ensures
        read_into(content, offset, read_into(content, offset, buf)) == read_into(
            content,
            offset,
            buf,
        ),
{
    let once = read_into(content, offset, buf);
    assert(once.len() == buf.len());
    let n = crate::cache::read_len(offset, buf.len() as int, content.len() as int);
    if n > 0 {
        assert(once.subrange(n, once.len() as int) =~= buf.subrange(n, buf.len() as int));
        assert(read_into(content, offset, once) =~= once);
    }
}

/// Clamping: a traversal whose end lies past the source owes exactly what a
/// traversal ending at the source's end owes; one that starts at or past
/// the end delivers nothing and succeeds.
pub proof fn lemma_clamping(
    content: Seq<u8>,
    start: int,
    end: int,
    before: Seq<Seq<u8>>,
    after: Seq<Seq<u8>>,
    ok: bool,
)
    ensures
        end > content.len() ==> (traversal_owed(content, start, end, before, after, ok)
            <==> traversal_owed(content, start, content.len() as int, before, after, ok)),
        start >= content.len() && traversal_owed(content, start, end, before, after, ok) ==> ok
            && after == before,
{
    assert(clamped_end(content.len() as int, content.len() as int) == content.len());
    if start >= content.len() && traversal_owed(content, start, end, before, after, ok) {
        assert(after =~= after.subrange(0, before.len() as int));
    }
}

/// A run of non-empty paged chunks from `start`, joining to `total` bytes,
/// that has more than one chunk starts its last chunk on the last page
/// boundary before its end; one with a single chunk stays in one page.
proof fn lemma_paged_last_start(chunks: Seq<Seq<u8>>, start: int, p: int)
    requires
        p > 0,
        start >= 0,
        chunks.len() > 0,
        paged_chunks(chunks, start, p),
        forall|i: int| 0 <= i < chunks.len() ==> #[trigger] chunks[i].len() > 0,
    ensures
        ({
            let e = start + joined(chunks).len();
            let at = start + joined(chunks.drop_last()).len();
            &&& chunks.len() > 1 ==> at == ((e - 1) / p) * p && at > start
            &&& chunks.len() == 1 ==> (e - 1) / p == start / p
        }),
{
    let init = chunks.drop_last();
    let c = chunks.last();
    let e = start + joined(chunks).len();
    let at = start + joined(init).len();
    assert(joined(chunks) == joined(init) + c);
    assert(c.len() == chunks[chunks.len() - 1].len());
    lemma_fundamental_div_mod(at, p);
    if chunks.len() > 1 {
        assert(init.len() > 0);
        assert(init.last() == chunks[init.len() - 1]);
        assert(joined(init) == joined(init.drop_last()) + init.last());
        assert(at > start);
        let q = at / p;
        assert(at == q * p) by (nonlinear_arith)
            requires
                at == p * (at / p) + at % p,
                at % p == 0,
                q == at / p,
        ;
        lemma_fundamental_div_mod_converse_div(e - 1, p, q, e - 1 - at);
    } else {
        assert(init.len() == 0);
        assert(at == start);
        let q = start / p;
        lemma_fundamental_div_mod_converse_div(e - 1, p, q, e - 1 - q * p);
    }
}

/// Paged chunk runs are unique: two runs of non-empty chunks laid out by
/// pages of `p` bytes from the same `start` that join to the same bytes are
/// the same run.
pub proof fn lemma_paged_chunks_unique(a: Seq<Seq<u8>>, b: Seq<Seq<u8>>, start: int, p: int)
    requires
        p > 0,
        start >= 0,
        paged_chunks(a, start, p),
        paged_chunks(b, start, p),
        forall|i: int| 0 <= i < a.len() ==> #[trigger] a[i].len() > 0,
        forall|i: int| 0 <= i < b.len() ==> #[trigger] b[i].len() > 0,
        joined(a) == joined(b),
    ensures
        a == b,
    decreases a.len(),
{
    if a.len() == 0 || b.len() == 0 {
        if a.len() > 0 {
            assert(joined(a) == joined(a.drop_last()) + a.last());
            assert(a.last() == a[a.len() - 1]);
        }
        if b.len() > 0 {
            assert(joined(b) == joined(b.drop_last()) + b.last());
            assert(b.last() == b[b.len() - 1]);
        }
        assert(a =~= b);
    } else {
        lemma_paged_last_start(a, start, p);
        lemma_paged_last_start(b, start, p);
        lemma_fundamental_div_mod(start, p);
        let e = start + joined(a).len();
        let xa = start + joined(a.drop_last()).len();
        let xb = start + joined(b.drop_last()).len();
        if a.len() > 1 && b.len() == 1 {
            let q = (e - 1) / p;
            assert(false) by (nonlinear_arith)
                requires
                    xa == q * p,
                    xa > start,
                    xa <= e - 1,
                    q == start / p,
                    start >= 0,
                    p > 0,
                    start == p * (start / p) + start % p,
                    start % p < p,
                    start % p >= 0,
            ;
        }
        if a.len() == 1 && b.len() > 1 {
            let q = (e - 1) / p;
            assert(false) by (nonlinear_arith)
                requires
                    xb == q * p,
                    xb > start,
                    xb <= e - 1,
                    q == start / p,
                    start >= 0,
                    p > 0,
                    start == p * (start / p) + start % p,
                    start % p < p,
                    start % p >= 0,
            ;
        }
        let ja = joined(a);
        assert(ja == joined(a.drop_last()) + a.last());
        assert(ja == joined(b.drop_last()) + b.last());
        assert(xa == xb);
        let k = xa - start;
        assert(joined(a.drop_last()) =~= ja.subrange(0, k));
        assert(joined(b.drop_last()) =~= ja.subrange(0, k));
        assert(a.last() =~= ja.subrange(k, ja.len() as int));
        assert(b.last() =~= ja.subrange(k, ja.len() as int));
        assert forall|i: int| 0 <= i < a.len() - 1 implies #[trigger] a.drop_last()[i].len() > 0 by {
            assert(a.drop_last()[i] == a[i]);
        }
        assert forall|i: int| 0 <= i < b.len() - 1 implies #[trigger] b.drop_last()[i].len() > 0 by {
            assert(b.drop_last()[i] == b[i]);
        }
        lemma_paged_chunks_unique(a.drop_last(), b.drop_last(), start, p);
        assert(a =~= a.drop_last().push(a.last()));
        assert(b =~= b.drop_last().push(b.last()));
    }
}

/// Clamping hands out the same chunks: two successful paged traversals from
/// the same start, whose ends clamp to the same point of the source, deliver
/// the same run of chunks.
pub proof fn lemma_clamped_chunks_agree(
    content: Seq<u8>,
    start: int,
    end1: int,
    end2: int,
    p: int,
    before1: Seq<Seq<u8>>,
    after1: Seq<Seq<u8>>,
    before2: Seq<Seq<u8>>,
    after2: Seq<Seq<u8>>,
)
    requires
        p > 0,
        start >= 0,
        clamped_end(end1, content.len() as int) == clamped_end(end2, content.len() as int),
        traversal_owed(content, start, end1, before1, after1, true),
        traversal_owed(content, start, end2, before2, after2, true),
        paged_chunks(delivered(before1, after1), start, p),
        paged_chunks(delivered(before2, after2), start, p),
    ensures
        delivered(before1, after1) == delivered(before2, after2),
{
    let a = delivered(before1, after1);
    let b = delivered(before2, after2);
    if start >= clamped_end(end1, content.len() as int) {
        assert(a =~= b);
    } else {
        lemma_paged_chunks_unique(a, b, start, p);
    }
}

} // verus!
