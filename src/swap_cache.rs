use vstd::prelude::*;

use std::collections::HashMap;

use crate::cache::{
    answers_owed, clamped_end, delivered, joined, lemma_joined_push, refused, traversal_owed, Cache,
    Visitor,
};
use crate::error::Error;
use crate::source::{SeekFrom, Source};
use vstd::arithmetic::div_mod::{
    lemma_div_is_ordered, lemma_fundamental_div_mod, lemma_fundamental_div_mod_converse_div,
    lemma_fundamental_div_mod_converse_mod,
};

verus! {

broadcast use vstd::std_specs::hash::group_hash_axioms;

/// The link value that marks an end of the LRU list.
const NULL: usize = usize::MAX;

/// One resident page: its bytes, its page index, and its neighbours in the
/// LRU list (`next` towards the most recently used end).
struct Frame {
    data: Vec<u8>,
    page: u64,
    next: usize,
    prev: usize,
}

/// Frame `f` is the one the map names for its page.
spec fn is_mapped(frames: Seq<Frame>, map: Map<u64, usize>, f: int) -> bool {
    &&& map.contains_key(frames[f].page)
    &&& map[frames[f].page] == f
}

/// The bytes of frame `f` agree with the source wherever its page lies
/// inside the source.
spec fn holds_page(frames: Seq<Frame>, p: int, content: Seq<u8>, f: int) -> bool {
    forall|j: int|
        0 <= j < p && frames[f].page * p + j < content.len() ==> #[trigger] frames[f].data@[j]
            == content[frames[f].page * p + j]
}

/// The links of `frames` spell out `order`, front first, and `rank` is the
/// inverse of `order`.
spec fn list_spells(frames: Seq<Frame>, order: Seq<usize>, rank: Seq<int>) -> bool {
    let n = frames.len() as int;
    &&& order.len() == n
    &&& rank.len() == n
    &&& forall|i: int| 0 <= i < n ==> #[trigger] order[i] < n && rank[order[i] as int] == i
    &&& forall|f: int| 0 <= f < n ==> 0 <= #[trigger] rank[f] < n && order[rank[f]] == f
    &&& forall|i: int| 0 <= i < n - 1 ==> #[trigger] frames[order[i] as int].next == order[i + 1]
    &&& forall|i: int| 0 < i < n ==> #[trigger] frames[order[i] as int].prev == order[i - 1]
    &&& frames[order[0] as int].prev == NULL
    &&& frames[order[n - 1] as int].next == NULL
}

/// The map and the frames agree: every map entry names a frame holding that
/// page; every frame but possibly the front one is named by the map for its
/// page, and the front one, when not named, has a page absent from the map;
/// and every named frame holds its page's bytes.
spec fn map_agrees(
    frames: Seq<Frame>,
    map: Map<u64, usize>,
    front: int,
    page_sz: int,
    content: Seq<u8>,
) -> bool {
    let n = frames.len() as int;
    &&& forall|p: u64| #[trigger]
        map.contains_key(p) ==> map[p] < n && frames[map[p] as int].page == p
    &&& forall|f: int| 0 <= f < n && f != front ==> #[trigger] is_mapped(frames, map, f)
    &&& is_mapped(frames, map, front) || !map.contains_key(frames[front].page)
    &&& forall|f: int|
        0 <= f < n && is_mapped(frames, map, f) ==> #[trigger] holds_page(
            frames,
            page_sz,
            content,
            f,
        )
}

/// `order` with the frame at rank `k` moved to the most recently used end.
spec fn promoted(order: Seq<usize>, k: int) -> Seq<usize> {
    order.remove(k).push(order[k])
}

/// Reads from the source's position until `page` is full or the source ends,
/// returning how many bytes were placed at the start of `page`.
fn fill_page<T: Source>(source: &mut T, page: &mut [u8]) -> (r: Result<usize, Error>)
    requires
        old(source).valid(),
        old(source).cursor() <= old(source).content().len(),
    ensures
        final(source).valid(),
        final(source).content() == old(source).content(),
        final(source).reliable() == old(source).reliable(),
        old(source).reliable() ==> r is Ok,
        final(page)@.len() == old(page)@.len(),
        r is Ok ==> final(source).cursor() == old(source).cursor() + r->Ok_0,
        r is Ok ==> forall|j: int|
            r->Ok_0 <= j < old(page)@.len() ==> #[trigger] final(page)@[j] == old(page)@[j],
        r is Ok ==> r->Ok_0 as int == if old(page)@.len() + old(source).cursor() <= old(
            source,
        ).content().len() {
            old(page)@.len() as int
        } else {
            old(source).content().len() - old(source).cursor()
        },
        r is Ok ==> forall|j: int|
            0 <= j < r->Ok_0 ==> #[trigger] final(page)@[j] == old(source).content()[old(
                source,
            ).cursor() + j],
{
    let ghost c0 = source.cursor() as int;
    let ghost content = source.content();
    let mut filled: usize = 0;
    while filled < page.len()
        invariant
            source.valid(),
            source.content() == content,
            content == old(source).content(),
            source.reliable() == old(source).reliable(),
            c0 == old(source).cursor(),
            page@.len() == old(page)@.len(),
            filled <= page@.len(),
            source.cursor() == c0 + filled,
            c0 + filled <= content.len(),
            forall|j: int| 0 <= j < filled ==> #[trigger] page@[j] == content[c0 + j],
            forall|j: int| filled <= j < page@.len() ==> #[trigger] page@[j] == old(page)@[j],
        ensures
            filled == page@.len() || c0 + filled == content.len(),
        decreases page@.len() - filled,
    {
        let ghost before = page@;
        let (head, rest) = page.split_at_mut(filled);
        let ghost rest0 = rest@;
        let n = match source.read(rest) {
            Ok(n) => n,
            Err(e) => {
                return Err(e);
            },
        };
        if n == 0 {
            proof {
                assert(rest@.len() == page@.len() - filled);
                assert(c0 + filled == content.len());
                assert(rest@ =~= rest@.subrange(0, rest@.len() as int));
                assert(rest@ =~= rest0);
                assert(page@ =~= head@ + rest@);
                assert forall|j: int| 0 <= j < page@.len() implies #[trigger] page@[j] == before[j] by {
                    if j < filled {
                        assert(page@[j] == head@[j]);
                    } else {
                        assert(page@[j] == rest@[j - filled]);
                    }
                }
            }
            break;
        }
        proof {
            assert(page@ =~= head@ + rest@);
            assert forall|j: int| 0 <= j < filled + n implies #[trigger] page@[j] == content[c0 + j] by {
                if j < filled {
                    assert(page@[j] == head@[j]);
                    assert(head@[j] == before[j]);
                } else {
                    assert(page@[j] == rest@[j - filled]);
                    assert(rest@.subrange(0, n as int)[j - filled] == rest@[j - filled]);
                }
            }
            assert forall|j: int| filled + n <= j < page@.len() implies #[trigger] page@[j] == old(
                page,
            )@[j] by {
                assert(page@[j] == rest@[j - filled]);
                assert(rest@.subrange(n as int, rest@.len() as int)[j - filled - n] == rest@[j
                    - filled]);
                assert(rest0.subrange(n as int, rest0.len() as int)[j - filled - n] == rest0[j
                    - filled]);
                assert(rest0[j - filled] == before[j]);
                assert(before[j] == old(page)@[j]);
            }
        }
        filled = filled + n;
    }
    Ok(filled)
}

/// The pages of the first `k` frames.
spec fn pages_upto(frames: Seq<Frame>, k: int) -> Set<u64>
    decreases k,
{
    if k <= 0 {
        Set::empty()
    } else {
        pages_upto(frames, k - 1).insert(frames[k - 1].page)
    }
}

/// Frames with distinct pages give as many pages as frames.
proof fn lemma_pages_upto(frames: Seq<Frame>, k: int)
    requires
        0 <= k <= frames.len(),
        forall|f: int, g: int|
            0 <= f < frames.len() && 0 <= g < frames.len() && f != g ==> #[trigger] frames[f].page
                != #[trigger] frames[g].page,
    ensures
        pages_upto(frames, k).finite(),
        pages_upto(frames, k).len() == k,
        forall|p: u64|
            #[trigger] pages_upto(frames, k).contains(p) <==> exists|f: int|
                0 <= f < k && frames[f].page == p,
    decreases k,
{
    if k > 0 {
        lemma_pages_upto(frames, k - 1);
        let prev = pages_upto(frames, k - 1);
        let p = frames[k - 1].page;
        if prev.contains(p) {
            let f = choose|f: int| 0 <= f < k - 1 && frames[f].page == p;
            assert(frames[f].page != frames[k - 1].page);
        }
        assert forall|q: u64| #[trigger] pages_upto(frames, k).contains(q) implies exists|f: int|
            0 <= f < k && frames[f].page == q by {
            if q != p {
                assert(prev.contains(q));
            }
        }
    }
}

/// One access under least-recently-used replacement, over the resident
/// pages listed from the least to the most recently used: a resident page
/// moves to the most recently used end; a missing page evicts the least
/// recently used one and takes the most recently used end.
pub open spec fn lru_touch(pages: Seq<u64>, p: u64) -> Seq<u64> {
    if pages.contains(p) {
        pages.remove(pages.index_of(p)).push(p)
    } else {
        pages.drop_first().push(p)
    }
}

/// Accessing pages `lo, lo + 1, ..., hi - 1` in turn.
pub open spec fn lru_touch_range(pages: Seq<u64>, lo: int, hi: int) -> Seq<u64>
    decreases hi - lo,
{
    if hi <= lo {
        pages
    } else {
        lru_touch(lru_touch_range(pages, lo, hi - 1), (hi - 1) as u64)
    }
}

/// The chunks of a paged traversal from `start`, with pages of `p` bytes:
/// each chunk lies inside one page, and every chunk after the first starts
/// on a page boundary, so every chunk but the last runs to its page's end.
pub open spec fn paged_chunks(chunks: Seq<Seq<u8>>, start: int, p: int) -> bool
    decreases chunks.len(),
{
    if chunks.len() == 0 {
        true
    } else {
        let at = start + joined(chunks.drop_last()).len();
        &&& paged_chunks(chunks.drop_last(), start, p)
        &&& chunks.last().len() <= p - at % p
        &&& chunks.len() > 1 ==> at % p == 0
    }
}

/// Byte `j` of page `i` as construction leaves it: the source byte, or zero
/// past the end of the source.
spec fn prefilled(content: Seq<u8>, p: int, i: int, j: int) -> u8 {
    if i * p + j < content.len() {
        content[i * p + j]
    } else {
        0
    }
}

/// The mutable interior of a swap cache.
struct SwapCacheImpl<T: Source> {
    page_sz: u64,
    source: T,
    frames: Vec<Frame>,
    map: HashMap<u64, usize>,
    front: usize,
    back: usize,
    /// The bytes of the source.
    bytes: Ghost<Seq<u8>>,
    /// The frames from the least to the most recently used.
    order: Ghost<Seq<usize>>,
    /// The place of each frame in `order`.
    rank: Ghost<Seq<int>>,
}

impl<T: Source> SwapCacheImpl<T> {
    /// The pages held, from the least to the most recently used frame.
    spec fn pages_lru(&self) -> Seq<u64> {
        self.order@.map_values(|f: usize| self.frames@[f as int].page)
    }

    /// The least recently used frame holds a loaded page.
    spec fn settled(&self) -> bool {
        is_mapped(self.frames@, self.map@, self.front as int)
    }

    spec fn links_ok(&self) -> bool {
        let n = self.frames@.len() as int;
        &&& list_spells(self.frames@, self.order@, self.rank@)
        &&& self.front == self.order@[0]
        &&& self.back == self.order@[n - 1]
    }

    spec fn map_ok(&self) -> bool {
        map_agrees(self.frames@, self.map@, self.front as int, self.page_sz as int, self.bytes@)
    }

    spec fn inv(&self) -> bool {
        let n = self.frames@.len() as int;
        &&& self.page_sz > 0
        &&& 0 < n < NULL
        &&& forall|f: int| 0 <= f < n ==> (#[trigger] self.frames@[f]).data@.len() == self.page_sz
        &&& self.source.valid()
        &&& self.source.content() == self.bytes@
        &&& self.bytes@.len() <= u64::MAX
        &&& self.links_ok()
        &&& self.map_ok()
    }

    /// Allocates `frame_count` frames of `page_size` bytes and fills them
    /// with the first pages of the source; frame 0 ends up most recently used
    /// and the last frame least recently used.
    fn new(source: T, page_size: usize, frame_count: usize) -> (r: Result<Self, Error>)
        requires
            source.valid(),
            source.content().len() <= u64::MAX,
            page_size > 0,
            0 < frame_count < NULL,
            page_size * frame_count <= usize::MAX,
        ensures
            source.reliable() ==> r is Ok,
            r is Ok ==> r->Ok_0.inv(),
            r is Ok ==> r->Ok_0.source.reliable() == source.reliable(),
            r is Ok ==> r->Ok_0.bytes@ == source.content(),
            r is Ok ==> r->Ok_0.page_sz == page_size,
            r is Ok ==> r->Ok_0.frames@.len() == frame_count,
            r is Ok ==> r->Ok_0.front == frame_count - 1 && r->Ok_0.back == 0,
            r is Ok ==> r->Ok_0.order@ == Seq::new(
                frame_count as nat,
                |k: int| (frame_count - 1 - k) as usize,
            ),
            r is Ok ==> forall|i: int|
                0 <= i < frame_count ==> (#[trigger] r->Ok_0.frames@[i]).page == i
                    && r->Ok_0.frames@[i].next == (if i == 0 {
                    NULL
                } else {
                    (i - 1) as usize
                }) && r->Ok_0.frames@[i].prev == (if i == frame_count - 1 {
                    NULL
                } else {
                    (i + 1) as usize
                }),
            r is Ok ==> forall|p: u64| #[trigger]
                r->Ok_0.map@.contains_key(p) <==> p < frame_count,
            r is Ok ==> forall|p: u64| #[trigger]
                r->Ok_0.map@.contains_key(p) ==> r->Ok_0.map@[p] == p,
            r is Ok ==> forall|i: int, j: int|
                0 <= i < frame_count && 0 <= j < page_size ==> #[trigger] r->Ok_0.frames@[i].data@[j]
                    == prefilled(source.content(), page_size as int, i, j),
            r is Ok ==> r->Ok_0.settled(),
            r is Ok ==> r->Ok_0.pages_lru() == Seq::new(
                frame_count as nat,
                |k: int| (frame_count - 1 - k) as u64,
            ),
    {
        let ghost content = source.content();
        let ghost reliable = source.reliable();
        let ghost len = content.len() as int;
        let ghost pp = page_size as int;
        let mut src = source;
        src.seek(SeekFrom::Start(0))?;
        let mut frames: Vec<Frame> = Vec::with_capacity(frame_count);
        let mut map: HashMap<u64, usize> = HashMap::with_capacity(frame_count);
        let last = frame_count - 1;
        let mut i: usize = 0;
        while i < frame_count
            invariant
                i <= frame_count,
                last == frame_count - 1,
                0 < frame_count < NULL,
                page_size > 0,
                pp == page_size,
                page_size * frame_count <= usize::MAX,
                len == content.len(),
                len <= u64::MAX,
                src.valid(),
                src.content() == content,
                src.reliable() == reliable,
                reliable == source.reliable(),
                src.cursor() == if i * pp <= len {
                    i * pp
                } else {
                    len
                },
                frames@.len() == i,
                forall|g: int| 0 <= g < i ==> (#[trigger] frames@[g]).data@.len() == page_size,
                forall|g: int| 0 <= g < i ==> (#[trigger] frames@[g]).page == g,
                forall|g: int|
                    0 <= g < i ==> (#[trigger] frames@[g]).next == if g == 0 {
                        NULL
                    } else {
                        (g - 1) as usize
                    },
                forall|g: int|
                    0 <= g < i ==> (#[trigger] frames@[g]).prev == if g == last {
                        NULL
                    } else {
                        (g + 1) as usize
                    },
                forall|g: int| 0 <= g < i ==> #[trigger] holds_page(frames@, pp, content, g),
                forall|g: int, j: int|
                    0 <= g < i && 0 <= j < pp ==> #[trigger] frames@[g].data@[j] == prefilled(
                        content,
                        pp,
                        g,
                        j,
                    ),
                forall|p: u64| #[trigger] map@.contains_key(p) <==> p < i,
                forall|p: u64| #[trigger] map@.contains_key(p) ==> map@[p] == p,
            decreases frame_count - i,
        {
            let mut data: Vec<u8> = vec![0u8; page_size];
            proof {
                assert(i * pp <= usize::MAX) by (nonlinear_arith)
                    requires
                        i < frame_count,
                        pp * frame_count <= usize::MAX,
                        pp > 0,
                ;
                assert((i + 1) * pp == i * pp + pp) by (nonlinear_arith);
            }
            let ghost at = src.cursor() as int;
            let n = fill_page(&mut src, data.as_mut_slice())?;
            let _ = map.insert(i as u64, i);
            let next = if i == 0 {
                NULL
            } else {
                i - 1
            };
            let prev = if i == last {
                NULL
            } else {
                i + 1
            };
            let ghost frames0 = frames@;
            proof {
                assert forall|j: int| 0 <= j < pp implies #[trigger] data@[j] == prefilled(
                    content,
                    pp,
                    i as int,
                    j,
                ) by {
                    if i * pp + j < len {
                        assert(at == i * pp);
                    }
                }
            }
            frames.push(Frame { data, page: i as u64, next, prev });
            proof {
                assert forall|g: int, j: int|
                    0 <= g <= i && 0 <= j < pp implies #[trigger] frames@[g].data@[j] == prefilled(
                    content,
                    pp,
                    g,
                    j,
                ) by {
                    if g < i {
                        assert(frames@[g] == frames0[g]);
                    }
                }
                assert forall|g: int| 0 <= g <= i implies #[trigger] holds_page(
                    frames@,
                    pp,
                    content,
                    g,
                ) by {
                    if g < i {
                        assert(holds_page(frames0, pp, content, g));
                        assert(frames@[g] == frames0[g]);
                    } else {
                        assert forall|j: int|
                            0 <= j < pp && frames@[g].page * pp + j < len implies #[trigger] frames@[g].data@[j]
                            == content[frames@[g].page * pp + j] by {
                            assert(frames@[g].page == i);
                            assert(at == i * pp);
                        }
                    }
                }
            }
            i = i + 1;
        }
        let ghost n = frame_count as int;
        let ghost order = Seq::new(frame_count as nat, |k: int| (n - 1 - k) as usize);
        let ghost rank = Seq::new(frame_count as nat, |g: int| n - 1 - g);
        let cache = SwapCacheImpl {
            page_sz: page_size as u64,
            source: src,
            frames,
            map,
            front: last,
            back: 0,
            bytes: Ghost(content),
            order: Ghost(order),
            rank: Ghost(rank),
        };
        proof {
            let frames = cache.frames@;
            assert(list_spells(frames, order, rank));
            assert forall|f: int| 0 <= f < n implies #[trigger] is_mapped(frames, cache.map@, f) by {
                assert(cache.map@.contains_key(f as u64));
            }
            assert(map_agrees(frames, cache.map@, last as int, pp, content));
            assert(cache.settled());
            assert(cache.pages_lru() =~= Seq::new(
                frame_count as nat,
                |k: int| (frame_count - 1 - k) as u64,
            ));
        }
        Ok(cache)
    }

    /// Makes the page holding byte `pos` resident and most recently used,
    /// and returns its frame.
    fn get_chunk(&mut self, pos: u64) -> (r: Result<usize, Error>)
        requires
            old(self).inv(),
            pos < old(self).bytes@.len(),
        ensures
            final(self).inv(),
            final(self).page_sz == old(self).page_sz,
            final(self).bytes == old(self).bytes,
            final(self).source.reliable() == old(self).source.reliable(),
            old(self).source.reliable() ==> r is Ok,
            final(self).frames@.len() == old(self).frames@.len(),
            r is Ok ==> r->Ok_0 < final(self).frames@.len(),
            r is Ok ==> final(self).frames@[r->Ok_0 as int].page == pos / old(self).page_sz,
            r is Ok ==> holds_page(
                final(self).frames@,
                final(self).page_sz as int,
                final(self).bytes@,
                r->Ok_0 as int,
            ),
            r is Ok ==> final(self).order@ == promoted(old(self).order@, old(self).rank@[r->Ok_0 as int]),
            r is Ok && old(self).settled() ==> final(self).settled(),
            old(self).map@.contains_key(pos / old(self).page_sz) ==> r is Ok && final(self).map@
                == old(self).map@,
            r is Ok && old(self).settled() ==> final(self).pages_lru() == lru_touch(
                old(self).pages_lru(),
                pos / old(self).page_sz,
            ),
    {
        let page = pos / self.page_sz;
        proof {
            lemma_fundamental_div_mod(pos as int, self.page_sz as int);
            assert(page * self.page_sz <= pos) by (nonlinear_arith)
                requires
                    pos == self.page_sz * page + pos % self.page_sz,
                    pos % self.page_sz >= 0,
            ;
        }
        let ghost n = self.frames@.len() as int;
        let ghost order0 = self.order@;
        let ghost rank0 = self.rank@;
        let ghost frames0 = self.frames@;
        let ghost map0 = self.map@;
        let ghost pages0 = self.pages_lru();
        let ghost settled0 = self.settled();
        let found = match self.map.get(&page) {
            Some(f) => Some(*f),
            None => None,
        };
        let fidx = match found {
            Some(f) => f,
            None => {
                let f = self.load_page(page)?;
                proof {
                    assert(self.rank@[self.order@[0] as int] == 0);
                }
                f
            },
        };
        let ghost frames1 = self.frames@;
        proof {
            assert(is_mapped(self.frames@, self.map@, fidx as int));
        }
        self.promote_frame(fidx);
        proof {
            assert(is_mapped(self.frames@, self.map@, fidx as int));
            if settled0 {
                let frames = self.frames@;
                let map = self.map@;
                assert forall|g: int| 0 <= g < n implies #[trigger] is_mapped(frames0, map0, g) by {}
                assert forall|g: int| 0 <= g < n implies #[trigger] is_mapped(frames, map, g) by {
                    if g != order0[0] {
                        assert(is_mapped(frames0, map0, g));
                    }
                    assert(is_mapped(frames1, map, g));
                }
                assert(self.settled());
                let k = rank0[fidx as int];
                let pages = self.pages_lru();
                if found is Some {
                    assert(frames0[fidx as int].page == page);
                    assert(pages0[k] == page);
                    assert(pages0.contains(page));
                    let i = pages0.index_of(page);
                    assert(frames0[order0[i] as int].page == page);
                    assert(is_mapped(frames0, map0, order0[i] as int));
                    assert(order0[i] == fidx);
                    assert(i == k);
                    assert(pages =~= pages0.remove(k).push(page));
                } else {
                    assert(fidx == order0[0]);
                    assert(k == 0);
                    assert(!pages0.contains(page)) by {
                        if pages0.contains(page) {
                            let i = choose|i: int| 0 <= i < pages0.len() && pages0[i] == page;
                            assert(is_mapped(frames0, map0, order0[i] as int));
                        }
                    }
                    assert forall|i: int| 0 <= i < n - 1 implies #[trigger] pages[i] == pages0.drop_first().push(page)[i] by {
                        assert(rank0[order0[i + 1] as int] == i + 1);
                        assert(order0[i + 1] != order0[0]);
                    }
                    assert(pages =~= pages0.drop_first().push(page));
                }
            }
        }
        Ok(fidx)
    }

    /// Evicts the least recently used frame and loads page `page` into it.
    /// On failure the frame is left out of the map, holding `page` as its
    /// page index and indeterminate bytes, still at the front of the list.
    fn load_page(&mut self, page: u64) -> (r: Result<usize, Error>)
        requires
            old(self).inv(),
            page * old(self).page_sz < old(self).bytes@.len(),
            !old(self).map@.contains_key(page),
        ensures
            final(self).inv(),
            final(self).page_sz == old(self).page_sz,
            final(self).bytes == old(self).bytes,
            final(self).source.reliable() == old(self).source.reliable(),
            old(self).source.reliable() ==> r is Ok,
            final(self).frames@.len() == old(self).frames@.len(),
            final(self).order == old(self).order,
            final(self).rank == old(self).rank,
            final(self).front == old(self).front,
            r is Ok ==> r->Ok_0 == old(self).front,
            r is Ok ==> is_mapped(final(self).frames@, final(self).map@, r->Ok_0 as int),
            r is Ok ==> final(self).frames@[r->Ok_0 as int].page == page,
            forall|g: int|
                0 <= g < old(self).frames@.len() && g != old(self).front
                    ==> #[trigger] final(self).frames@[g] == old(self).frames@[g],
    {
        let f = self.front;
        let ghost n = self.frames@.len() as int;
        let ghost frames0 = self.frames@;
        let ghost map0 = self.map@;
        let old_page = self.frames[f].page;
        let _ = self.map.remove(&old_page);
        self.frames[f].page = page;
        proof {
            let frames = self.frames@;
            assert(self.map@ == map0.remove(old_page));
            assert forall|g: int| 0 <= g < n && g != f implies #[trigger] is_mapped(
                frames,
                self.map@,
                g,
            ) by {
                assert(is_mapped(frames0, map0, g));
                if frames0[g].page == old_page {
                    assert(map0[old_page] == g);
                }
            }
            assert forall|p: u64| #[trigger]
                self.map@.contains_key(p) implies self.map@[p] < n && frames[self.map@[p] as int].page
                == p by {
                assert(map0.contains_key(p));
                if map0[p] == f {
                    assert(frames0[f as int].page == p);
                    assert(p == old_page);
                }
            }
            assert forall|g: int| 0 <= g < n && is_mapped(frames, self.map@, g) implies #[trigger] holds_page(
                frames,
                self.page_sz as int,
                self.bytes@,
                g,
            ) by {
                assert(is_mapped(frames0, map0, g));
                assert(holds_page(frames0, self.page_sz as int, self.bytes@, g));
            }
            assert(self.links_ok());
            assert(self.map_ok());
        }
        match self.source.seek(SeekFrom::Start(page * self.page_sz)) {
            Ok(_) => {},
            Err(e) => {
                return Err(e);
            },
        }
        let ghost frames1 = self.frames@;
        let n_read = match fill_page(&mut self.source, self.frames[f].data.as_mut_slice()) {
            Ok(n_read) => n_read,
            Err(e) => {
                proof {
                    let frames = self.frames@;
                    assert forall|g: int| 0 <= g < n implies (#[trigger] frames[g]).data@.len()
                        == self.page_sz by {
                        if g != f {
                            assert(frames[g] == frames1[g]);
                        }
                    }
                    assert forall|g: int| 0 <= g < n && g != f implies #[trigger] is_mapped(
                        frames,
                        self.map@,
                        g,
                    ) by {
                        assert(is_mapped(frames1, self.map@, g));
                    }
                    assert forall|p: u64| #[trigger]
                        self.map@.contains_key(p) implies self.map@[p] < n
                        && frames[self.map@[p] as int].page == p by {
                        assert(frames1[self.map@[p] as int].page == p);
                    }
                    assert forall|g: int| 0 <= g < n && is_mapped(frames, self.map@, g) implies #[trigger] holds_page(
                        frames,
                        self.page_sz as int,
                        self.bytes@,
                        g,
                    ) by {
                        assert(g != f);
                        assert(frames[g] == frames1[g]);
                        assert(is_mapped(frames1, self.map@, g));
                        assert(holds_page(frames1, self.page_sz as int, self.bytes@, g));
                    }
                    assert(self.links_ok());
                    assert(self.map_ok());
                }
                return Err(e);
            },
        };
        let ghost map1 = self.map@;
        let _ = self.map.insert(page, f);
        proof {
            let frames = self.frames@;
            let pp = self.page_sz as int;
            assert forall|g: int| 0 <= g < n implies (#[trigger] frames[g]).data@.len()
                == self.page_sz by {
                if g != f {
                    assert(frames[g] == frames1[g]);
                }
            }
            assert forall|g: int| 0 <= g < n && g != f implies #[trigger] is_mapped(
                frames,
                self.map@,
                g,
            ) by {
                assert(frames[g] == frames1[g]);
                assert(is_mapped(frames1, map1, g));
            }
            assert forall|p: u64| #[trigger]
                self.map@.contains_key(p) implies self.map@[p] < n && frames[self.map@[p] as int].page
                == p by {
                if p != page {
                    assert(frames1[self.map@[p] as int].page == p);
                }
            }
            assert(holds_page(frames, pp, self.bytes@, f as int));
            assert forall|g: int| 0 <= g < n && is_mapped(frames, self.map@, g) implies #[trigger] holds_page(
                frames,
                pp,
                self.bytes@,
                g,
            ) by {
                if g != f {
                    assert(frames[g] == frames1[g]);
                    assert(is_mapped(frames1, map1, g));
                    assert(holds_page(frames1, pp, self.bytes@, g));
                }
            }
            assert(self.links_ok());
            assert(self.map_ok());
        }
        Ok(f)
    }

    /// Moves frame `fidx` to the most recently used end of the list.
    fn promote_frame(&mut self, fidx: usize)
        requires
            old(self).inv(),
            fidx < old(self).frames@.len(),
            is_mapped(old(self).frames@, old(self).map@, fidx as int),
        ensures
            final(self).inv(),
            final(self).page_sz == old(self).page_sz,
            final(self).source == old(self).source,
            final(self).bytes == old(self).bytes,
            final(self).map@ == old(self).map@,
            final(self).frames@.len() == old(self).frames@.len(),
            forall|f: int|
                0 <= f < final(self).frames@.len() ==> (#[trigger] final(self).frames@[f]).page
                    == old(self).frames@[f].page && final(self).frames@[f].data
                    == old(self).frames@[f].data,
            final(self).order@ == promoted(old(self).order@, old(self).rank@[fidx as int]),
    {
        let ghost n = self.frames@.len() as int;
        let ghost order = self.order@;
        let ghost rank = self.rank@;
        let ghost k = rank[fidx as int];
        let ghost frames0 = self.frames@;
        proof {
            assert(order[k] == fidx);
            if n > 1 {
                assert(rank[order[0] as int] == 0);
                assert(rank[order[n - 1] as int] == n - 1);
            }
        }
        if self.back == self.front {
            proof {
                assert(n == 1);
                assert(k == 0);
                assert(promoted(order, k) =~= order);
            }
            return;
        }
        let next_idx = self.frames[fidx].next;
        let prev_idx = self.frames[fidx].prev;
        if next_idx == NULL {
            proof {
                if k < n - 1 {
                    assert(frames0[order[k] as int].next == order[k + 1]);
                }
                assert(k == n - 1);
                assert(promoted(order, k) =~= order);
            }
            return;
        }
        proof {
            assert(k < n - 1);
            assert(next_idx == order[k + 1]);
            if k > 0 {
                assert(prev_idx == order[k - 1]);
            } else {
                assert(prev_idx == NULL);
            }
        }
        if prev_idx != NULL {
            self.frames[prev_idx].next = next_idx;
            self.frames[next_idx].prev = prev_idx;
        } else {
            self.front = next_idx;
            self.frames[next_idx].prev = NULL;
        }
        let back_idx = self.back;
        self.frames[back_idx].next = fidx;
        self.frames[fidx].prev = back_idx;
        self.frames[fidx].next = NULL;
        self.back = fidx;
        let ghost new_order = promoted(order, k);
        let ghost new_rank = Seq::new(
            n as nat,
            |g: int|
                if g == fidx {
                    n - 1
                } else if rank[g] > k {
                    rank[g] - 1
                } else {
                    rank[g]
                },
        );
        self.order = Ghost(new_order);
        self.rank = Ghost(new_rank);
        proof {
            let frames = self.frames@;
            assert forall|f: int| 0 <= f < n implies (#[trigger] frames[f]).page == frames0[f].page
                && frames[f].data == frames0[f].data && frames[f].data@.len() == self.page_sz by {}
            assert forall|i: int| 0 <= i < n implies #[trigger] new_order[i] < n
                && new_rank[new_order[i] as int] == i by {
                if i < k {
                    assert(new_order[i] == order[i]);
                    assert(rank[order[i] as int] == i);
                } else if i < n - 1 {
                    assert(new_order[i] == order[i + 1]);
                    assert(rank[order[i + 1] as int] == i + 1);
                } else {
                    assert(new_order[i] == fidx);
                }
            }
            assert forall|f: int| 0 <= f < n implies 0 <= #[trigger] new_rank[f] < n
                && new_order[new_rank[f]] == f by {
                assert(order[rank[f]] == f);
            }
            assert forall|i: int| 0 <= i < n - 1 implies #[trigger] frames[new_order[i] as int].next
                == new_order[i + 1] by {
                if i < k - 1 {
                    assert(frames0[order[i] as int].next == order[i + 1]);
                    assert(rank[order[i] as int] == i);
                } else if i == k - 1 {
                } else if i < n - 2 {
                    assert(frames0[order[i + 1] as int].next == order[i + 2]);
                    assert(rank[order[i + 1] as int] == i + 1);
                } else {
                }
            }
            assert forall|i: int| 0 < i < n implies #[trigger] frames[new_order[i] as int].prev
                == new_order[i - 1] by {
                if i < k {
                    assert(frames0[order[i] as int].prev == order[i - 1]);
                    assert(rank[order[i] as int] == i);
                } else if i == k {
                } else if i < n - 1 {
                    assert(frames0[order[i + 1] as int].prev == order[i]);
                    assert(rank[order[i + 1] as int] == i + 1);
                } else {
                }
            }
            if k > 0 {
                assert(rank[order[0] as int] == 0);
                assert(frames[new_order[0] as int].prev == NULL);
            }
            assert(list_spells(frames, new_order, new_rank));
            assert forall|f: int| 0 <= f < n && f != self.front implies #[trigger] is_mapped(
                frames,
                self.map@,
                f,
            ) by {
                assert(is_mapped(frames0, self.map@, f));
            }
            assert forall|f: int| 0 <= f < n && is_mapped(frames, self.map@, f) implies #[trigger] holds_page(
                frames,
                self.page_sz as int,
                self.bytes@,
                f,
            ) by {
                assert(is_mapped(frames0, self.map@, f));
                assert(holds_page(frames0, self.page_sz as int, self.bytes@, f));
            }
            assert(self.links_ok());
            assert forall|p: u64| #[trigger] self.map@.contains_key(p) implies self.map@[p] < n
                && frames[self.map@[p] as int].page == p by {
                assert(frames0[self.map@[p] as int].page == p);
            }
            if k == 0 {
                assert(self.front == order[1]);
                assert(rank[order[1] as int] == 1);
                assert(is_mapped(frames0, self.map@, order[1] as int));
            } else {
                assert(self.front == old(self).front);
                assert(frames[self.front as int].page == frames0[self.front as int].page);
            }
            assert(self.map_ok());
        }
    }
}

/// A cache that keeps a fixed number of fixed-size pages resident and
/// swaps pages in on demand, evicting the least recently used one.
///
/// Traversal needs exclusive access, since every lookup may load a page and
/// reorders the LRU list.
pub struct SwapCache<T: Source> {
    sz: u64,
    cache_sz: usize,
    swap: SwapCacheImpl<T>,
}

impl<T: Source> SwapCache<T> {
    /// Creates a cache over `source` with `frame_count` frames of
    /// `page_size` bytes each, prefilled with the first pages of the source.
    pub fn new(source: T, page_size: usize, frame_count: usize) -> (r: Result<Self, Error>)
        requires
            source.valid(),
            page_size * frame_count <= usize::MAX,
            frame_count < usize::MAX,
        ensures
            page_size == 0 || frame_count == 0 ==> r is Err && r->Err_0 is ZeroCache,
            page_size > 0 && frame_count > 0 && source.reliable() ==> r is Ok,
            r is Ok ==> r->Ok_0.wf(),
            r is Ok ==> r->Ok_0.reliable() == source.reliable(),
            r is Ok ==> r->Ok_0.rewinds() == source.reliable(),
            r is Ok ==> r->Ok_0.content() == source.content(),
            r is Ok ==> r->Ok_0.resident() == page_size * frame_count,
            r is Ok ==> r->Ok_0.page_size() == page_size,
            r is Ok ==> r->Ok_0.frame_count() == frame_count,
            r is Ok ==> r->Ok_0.settled(),
            r is Ok ==> r->Ok_0.lru_pages() == Seq::new(
                frame_count as nat,
                |i: int| (frame_count - 1 - i) as u64,
            ),
    {
        if page_size == 0 {
            return Err(Error::new_zero_cache("swap cache configured with zero pages"));
        }
        if frame_count == 0 {
            return Err(Error::new_zero_cache("swap cache configured with zero frames"));
        }
        let mut source = source;
        let len = source.seek(SeekFrom::End(0))?;
        let swap = SwapCacheImpl::new(source, page_size, frame_count)?;
        Ok(SwapCache { sz: len, cache_sz: page_size * frame_count, swap })
    }

    /// The size of a page in bytes.
    pub closed spec fn page_size(&self) -> nat {
        self.swap.page_sz as nat
    }

    /// The number of frames.
    pub closed spec fn frame_count(&self) -> nat {
        self.swap.frames@.len()
    }

    /// The frames in list order, from the least to the most recently used.
    pub closed spec fn lru_frames(&self) -> Seq<usize> {
        self.swap.order@
    }

    /// The page index each frame holds.
    pub closed spec fn frame_pages(&self) -> Seq<u64> {
        self.swap.frames@.map_values(|fr: Frame| fr.page)
    }

    /// The map from resident page index to frame.
    pub closed spec fn page_map(&self) -> Map<u64, usize> {
        self.swap.map@
    }

    /// The resident pages, from the least to the most recently used.
    pub closed spec fn lru_pages(&self) -> Seq<u64> {
        self.swap.pages_lru()
    }

    /// No page load has failed since the least recently used frame was last
    /// filled: that frame is resident.
    pub closed spec fn settled(&self) -> bool {
        is_mapped(self.swap.frames@, self.swap.map@, self.swap.front as int)
    }

    /// LRU structure: the list holds every frame exactly once, and the page
    /// map names, for each page it holds, the frame holding it. Once loads
    /// have settled, the map holds exactly one entry per frame.
    pub proof fn lemma_lru_shape(&self)
        requires
            self.wf(),
        ensures
            self.lru_frames().len() == self.frame_count(),
            forall|i: int|
                0 <= i < self.frame_count() ==> #[trigger] self.lru_frames()[i] < self.frame_count(),
            forall|i: int, j: int|
                0 <= i < self.frame_count() && 0 <= j < self.frame_count() && i != j
                    ==> #[trigger] self.lru_frames()[i] != #[trigger] self.lru_frames()[j],
            forall|p: u64| #[trigger]
                self.page_map().contains_key(p) ==> self.page_map()[p] < self.frame_count()
                    && self.frame_pages()[self.page_map()[p] as int] == p,
            self.settled() ==> self.page_map().dom().len() == self.frame_count(),
            self.settled() ==> forall|f: int|
                0 <= f < self.frame_count() ==> #[trigger] self.page_map()[self.frame_pages()[f]]
                    == f,
    {
        let frames = self.swap.frames@;
        let map = self.swap.map@;
        let n = frames.len() as int;
        let order = self.swap.order@;
        let rank = self.swap.rank@;
        assert forall|i: int, j: int|
            0 <= i < n && 0 <= j < n && i != j implies #[trigger] order[i] != #[trigger] order[j] by {
            assert(rank[order[i] as int] == i);
            assert(rank[order[j] as int] == j);
        }
        if self.settled() {
            assert forall|f: int| 0 <= f < n implies #[trigger] is_mapped(frames, map, f) by {}
            assert forall|f: int, g: int|
                0 <= f < n && 0 <= g < n && f != g implies #[trigger] frames[f].page
                != #[trigger] frames[g].page by {
                assert(is_mapped(frames, map, f));
                assert(is_mapped(frames, map, g));
            }
            lemma_pages_upto(frames, n);
            assert forall|p: u64| map.dom().contains(p) <==> #[trigger] pages_upto(
                frames,
                n,
            ).contains(p) by {
                if map.contains_key(p) {
                    assert(frames[map[p] as int].page == p);
                }
                if pages_upto(frames, n).contains(p) {
                    let f = choose|f: int| 0 <= f < n && frames[f].page == p;
                    assert(is_mapped(frames, map, f));
                }
            }
            assert(map.dom() =~= pages_upto(frames, n));
            assert forall|f: int| 0 <= f < n implies #[trigger] map[self.frame_pages()[f]] == f by {
                assert(is_mapped(frames, map, f));
            }
        }
    }
}

impl<T: Source> Cache for SwapCache<T> {
    type Source = T;

    closed spec fn wf(&self) -> bool {
        &&& self.swap.inv()
        &&& self.sz == self.swap.bytes@.len()
        &&& self.cache_sz == self.swap.page_sz * self.swap.frames@.len()
    }

    closed spec fn content(&self) -> Seq<u8> {
        self.swap.bytes@
    }

    closed spec fn resident(&self) -> nat {
        self.cache_sz as nat
    }

    closed spec fn reliable(&self) -> bool {
        self.swap.source.reliable()
    }

    closed spec fn rewinds(&self) -> bool {
        self.swap.source.reliable()
    }

    fn into_inner(self) -> (r: Result<T, Error>) {
        let mut source = self.swap.source;
        source.seek(SeekFrom::Start(0))?;
        Ok(source)
    }

    fn len(&self) -> (n: u64) {
        self.sz
    }

    fn cache_size(&self) -> (n: usize) {
        self.cache_sz
    }

    fn traverse_chunks<V: Visitor>(&mut self, start: u64, end: u64, visitor: &mut V) -> (r: Result<
        (),
        Error,
    >)
        ensures
            final(self).frame_count() == old(self).frame_count(),
            final(self).page_size() == old(self).page_size(),
            paged_chunks(
                delivered(old(visitor).seen(), final(visitor).seen()),
                start as int,
                old(self).page_size() as int,
            ),
            old(self).settled() && (r is Ok || refused(old(visitor).answers(), final(visitor).answers()))
                ==> final(self).settled(),
            old(self).settled() && refused(old(visitor).answers(), final(visitor).answers())
                ==> final(self).lru_pages() == lru_touch_range(
                old(self).lru_pages(),
                (start as int) / (old(self).page_size() as int),
                (start + joined(delivered(old(visitor).seen(), final(visitor).seen())).len() - 1)
                    / (old(self).page_size() as int) + 1,
            ),
            r is Err && !refused(old(visitor).answers(), final(visitor).answers()) && delivered(
                old(visitor).seen(),
                final(visitor).seen(),
            ).len() > 0 ==> (start + joined(delivered(old(visitor).seen(), final(visitor).seen())).len())
                % (old(self).page_size() as int) == 0,
            old(visitor).accepts_all() && (forall|q: int|
                (start as int) / (old(self).page_size() as int) <= q <= (clamped_end(
                    end as int,
                    old(self).content().len() as int,
                ) - 1) / (old(self).page_size() as int) ==> #[trigger] old(
                    self,
                ).page_map().contains_key(q as u64)) ==> r is Ok,
            r is Ok && old(self).settled() && start < clamped_end(
                end as int,
                old(self).content().len() as int,
            ) ==> final(self).settled() && final(self).lru_pages() == lru_touch_range(
                old(self).lru_pages(),
                (start as int) / (old(self).page_size() as int),
                (clamped_end(end as int, old(self).content().len() as int) - 1) / (old(
                    self,
                ).page_size() as int) + 1,
            ),
    {
        let ghost content = self.swap.bytes@;
        let ghost before = visitor.seen();
        let stop = if end > self.sz {
            self.sz
        } else {
            end
        };
        let ghost ans_before = visitor.answers();
        if start >= stop {
            proof {
                assert(delivered(before, visitor.seen()) =~= Seq::<Seq<u8>>::empty());
                assert(visitor.seen().subrange(0, before.len() as int) =~= before);
                assert(ans_before.subrange(0, ans_before.len() as int) =~= ans_before);
                assert(ans_before.subrange(ans_before.len() as int, ans_before.len() as int)
                    =~= Seq::<Result<(), Error>>::empty());
            }
            return Ok(());
        }
        let page_sz = self.swap.page_sz;
        let ghost all_res = forall|q: int|
            (start as int) / (old(self).page_size() as int) <= q <= (clamped_end(
                end as int,
                old(self).content().len() as int,
            ) - 1) / (old(self).page_size() as int) ==> #[trigger] old(self).page_map().contains_key(
                q as u64,
            );
        proof {
            if all_res {
                assert forall|q: int|
                    (start as int) / (page_sz as int) <= q <= (stop - 1) / (page_sz as int)
                        implies #[trigger] self.swap.map@.contains_key(q as u64) by {
                    assert(old(self).page_map().contains_key(q as u64));
                }
            }
        }
        let ghost pages_start = self.swap.pages_lru();
        let ghost settled_start = self.swap.settled();
        let mut pos = start;
        proof {
            assert(stop <= content.len());
            assert(delivered(before, visitor.seen()) =~= Seq::<Seq<u8>>::empty());
            assert(visitor.seen().subrange(0, before.len() as int) =~= before);
            assert(content.subrange(start as int, start as int) =~= Seq::<u8>::empty());
            assert(joined(Seq::<Seq<u8>>::empty()) == Seq::<u8>::empty());
            assert(ans_before.subrange(0, ans_before.len() as int) =~= ans_before);
        }
        loop
            invariant
                self.wf(),
                self.swap.frames@.len() == old(self).swap.frames@.len(),
                ans_before == old(visitor).answers(),
                ans_before.len() <= visitor.answers().len(),
                visitor.answers().subrange(0, ans_before.len() as int) == ans_before,
                visitor.answers().len() - ans_before.len() == delivered(
                    before,
                    visitor.seen(),
                ).len(),
                forall|i: int|
                    ans_before.len() <= i < visitor.answers().len() ==> (
                    #[trigger] visitor.answers()[i]) is Ok,
                paged_chunks(delivered(before, visitor.seen()), start as int, page_sz as int),
                delivered(before, visitor.seen()).len() > 0 ==> pos % page_sz == 0,
                all_res == (forall|q: int|
                    (start as int) / (old(self).page_size() as int) <= q <= (clamped_end(
                        end as int,
                        old(self).content().len() as int,
                    ) - 1) / (old(self).page_size() as int) ==> #[trigger] old(
                        self,
                    ).page_map().contains_key(q as u64)),
                all_res ==> self.swap.map@ == old(self).swap.map@,
                all_res ==> forall|q: int|
                    (start as int) / (page_sz as int) <= q <= (stop - 1) / (page_sz as int)
                        ==> #[trigger] self.swap.map@.contains_key(q as u64),
                self.swap.bytes@ == content,
                self.swap.page_sz == page_sz,
                page_sz == old(self).swap.page_sz,
                pages_start == old(self).swap.pages_lru(),
                settled_start == old(self).swap.settled(),
                settled_start ==> self.swap.settled(),
                settled_start ==> self.swap.pages_lru() == lru_touch_range(
                    pages_start,
                    (start as int) / (page_sz as int),
                    (pos as int) / (page_sz as int),
                ),
                self.cache_sz == old(self).cache_sz,
                content == old(self).content(),
                before == old(visitor).seen(),
                self.swap.source.reliable() == old(self).swap.source.reliable(),
                visitor.accepts_all() == old(visitor).accepts_all(),
                stop == clamped_end(end as int, content.len() as int),
                stop <= content.len(),
                start <= pos < stop,
                visitor.ready(),
                before.len() <= visitor.seen().len(),
                visitor.seen().subrange(0, before.len() as int) == before,
                forall|i: int|
                    0 <= i < delivered(before, visitor.seen()).len() ==> #[trigger] delivered(
                        before,
                        visitor.seen(),
                    )[i].len() > 0,
                joined(delivered(before, visitor.seen())) == content.subrange(
                    start as int,
                    pos as int,
                ),
            decreases stop - pos,
        {
            let ghost seen0 = visitor.seen();
            let ghost ans_mid = visitor.answers();
            proof {
                lemma_div_is_ordered(start as int, pos as int, page_sz as int);
                lemma_div_is_ordered(pos as int, stop - 1, page_sz as int);
                if all_res {
                    assert(self.swap.map@.contains_key(((pos as int) / (page_sz as int)) as u64));
                    assert(self.swap.map@.contains_key(pos / page_sz));
                }
            }
            let fidx = match self.swap.get_chunk(pos) {
                Ok(f) => f,
                Err(e) => {
                    proof {
                        assert(!all_res);
                        assert(!refused(ans_before, visitor.answers()));
                        assert(answers_owed(
                            ans_before,
                            visitor.answers(),
                            delivered(before, visitor.seen()).len() as int,
                            Err(e),
                        ));
                        assert(content.subrange(start as int, stop as int).subrange(
                            0,
                            pos - start,
                        ) =~= content.subrange(start as int, pos as int));
                        assert(content.subrange(start as int, pos as int).is_prefix_of(
                            content.subrange(start as int, stop as int),
                        ));
                        assert(traversal_owed(
                            content,
                            start as int,
                            end as int,
                            before,
                            visitor.seen(),
                            false,
                        ));
                    }
                    return Err(e);
                },
            };
            let page = pos / page_sz;
            let off = pos % page_sz;
            proof {
                lemma_fundamental_div_mod(pos as int, page_sz as int);
                assert(pos == page * page_sz + off) by (nonlinear_arith)
                    requires
                        pos == page_sz * page + off,
                ;
            }
            let data = self.swap.frames[fidx].data.as_slice();
            proof {
                assert(self.swap.frames@[fidx as int].data@.len() == page_sz);
                assert(off < page_sz);
            }
            let avail = page_sz - off;
            let last = stop - pos <= avail;
            let take = if last {
                stop - pos
            } else {
                avail
            };
            let dlen = data.len();
            proof {
                assert(off + take <= dlen);
            }
            let lo = off as usize;
            let hi = (off + take) as usize;
            let chunk = vstd::slice::slice_subrange(data, lo, hi);
            proof {
                let pp = page_sz as int;
                assert(holds_page(self.swap.frames@, pp, content, fidx as int));
                assert forall|j: int| 0 <= j < take implies #[trigger] chunk@[j] == content[pos + j] by {
                    assert(chunk@[j] == data@[off + j]);
                    assert(self.swap.frames@[fidx as int].data@[off + j] == content[page * pp + (off
                        + j)]);
                }
                assert(chunk@ =~= content.subrange(pos as int, pos + take));
            }
            let res = visitor.visit(chunk);
            proof {
                let ans = visitor.answers();
                assert(ans == ans_mid.push(res));
                assert(ans.subrange(0, ans_before.len() as int) =~= ans_before) by {
                    assert(ans.subrange(0, ans_before.len() as int) =~= ans_mid.subrange(
                        0,
                        ans_before.len() as int,
                    ));
                }
                assert(delivered(before, visitor.seen()).drop_last() =~= delivered(before, seen0));
                assert(joined(delivered(before, seen0)).len() == pos - start);
                assert(paged_chunks(delivered(before, visitor.seen()), start as int, page_sz as int));
                if res is Ok {
                    assert forall|i: int|
                        ans_before.len() <= i < ans.len() implies (#[trigger] ans[i]) is Ok by {
                        if i < ans_mid.len() {
                            assert(ans[i] == ans_mid[i]);
                        }
                    }
                }
                assert(answers_owed(
                    ans_before,
                    ans,
                    delivered(before, visitor.seen()).len() as int,
                    res,
                )) by {
                    let nw = ans.subrange(ans_before.len() as int, ans.len() as int);
                    assert forall|i: int| 0 <= i < nw.len() - 1 implies (#[trigger] nw[i]) is Ok by {
                        assert(nw[i] == ans_mid[ans_before.len() + i]);
                    }
                    if res is Ok {
                        assert forall|i: int| 0 <= i < nw.len() implies (#[trigger] nw[i]) is Ok by {
                            assert(nw[i] == ans[ans_before.len() + i]);
                        }
                    }
                }
                if settled_start {
                    assert(self.swap.pages_lru() == lru_touch_range(
                        pages_start,
                        (start as int) / (page_sz as int),
                        page + 1,
                    ));
                }
                lemma_fundamental_div_mod_converse_div(
                    pos + take - 1,
                    page_sz as int,
                    page as int,
                    off + take - 1,
                );
                let seen = visitor.seen();
                assert(seen.subrange(0, before.len() as int) =~= before) by {
                    assert(seen.subrange(0, before.len() as int) =~= seen0.subrange(
                        0,
                        before.len() as int,
                    ));
                }
                assert(delivered(before, seen) =~= delivered(before, seen0).push(chunk@));
                lemma_joined_push(delivered(before, seen0), chunk@);
                assert(joined(delivered(before, seen)) =~= content.subrange(
                    start as int,
                    pos + take,
                ));
                assert(content.subrange(start as int, stop as int).subrange(
                    0,
                    pos + take - start,
                ) =~= content.subrange(start as int, pos + take));
                assert(content.subrange(start as int, pos + take).is_prefix_of(
                    content.subrange(start as int, stop as int),
                ));
                assert forall|i: int| 0 <= i < delivered(before, seen).len() implies #[trigger] delivered(
                    before,
                    seen,
                )[i].len() > 0 by {
                    if i < delivered(before, seen0).len() {
                        assert(delivered(before, seen)[i] == delivered(before, seen0)[i]);
                    }
                }
                if last {
                    let pp = page_sz as int;
                    let n = self.swap.frames@.len() as int;
                    assert(self.swap.back == self.swap.order@[n - 1]);
                    assert(self.swap.order@[n - 1] == fidx);
                    lemma_fundamental_div_mod_converse_div(
                        stop - 1,
                        pp,
                        page as int,
                        off + take - 1,
                    );
                    assert((stop - 1) / pp == page);
                    assert(traversal_owed(
                        content,
                        start as int,
                        end as int,
                        before,
                        seen,
                        res is Ok,
                    ));
                }
            }
            if last {
                return res;
            }
            match res {
                Ok(()) => {},
                Err(e) => {
                    return Err(e);
                },
            }
            proof {
                let pp = page_sz as int;
                assert(pos + take == (page + 1) * pp + 0) by (nonlinear_arith)
                    requires
                        pos == page * pp + off,
                        take == pp - off,
                ;
                lemma_fundamental_div_mod_converse_div(pos + take, pp, page + 1, 0);
                lemma_fundamental_div_mod_converse_mod(pos + take, pp, page + 1, 0);
                assert forall|i: int|
                    ans_before.len() <= i < visitor.answers().len() implies (
                    #[trigger] visitor.answers()[i]) is Ok by {
                    if i < ans_mid.len() {
                        assert(visitor.answers()[i] == ans_mid[i]);
                    }
                }
            }
            pos = pos + take;
        }
    }
}

} // verus!
