use vstd::prelude::*;

use crate::cache::{Cache, Visitor};
use crate::error::Error;
use crate::full_cache::FullCache;
use crate::source::{SeekFrom, Source};
use crate::swap_cache::SwapCache;

verus! {

/// A cache that holds the whole source when it fits a memory budget, and
/// pages it otherwise.
///
/// For a source longer than the budget `M`, pages are `⌊√M⌋` bytes and the
/// frame count is that plus one, or that alone when the larger layout would
/// exceed the budget.
pub enum AutoCache<T: Source> {
    Full(FullCache<T>),
    Swap(SwapCache<T>),
}

/// `r` is the integer square root of `n`.
pub open spec fn is_isqrt(n: int, r: int) -> bool {
    0 <= r && r * r <= n < (r + 1) * (r + 1)
}

/// The frame count chosen for pages of `p` bytes under a budget of `m`.
pub open spec fn frames_for(p: int, m: int) -> int {
    if p * (p + 1) > m {
        p
    } else {
        p + 1
    }
}

/// The integer square root of `n`.
fn sqrt(n: usize) -> (r: usize)
    ensures
        is_isqrt(n as int, r as int),
{
    let target = n as u128;
    let mut lo: u128 = 0;
    let mut hi: u128 = target + 1;
    proof {
        assert(target < hi * hi) by (nonlinear_arith)
            requires
                hi == target + 1,
        ;
    }
    while hi - lo > 1
        invariant
            lo < hi,
            hi <= target + 1,
            target == n,
            n <= usize::MAX,
            lo * lo <= target,
            target < hi * hi,
        decreases hi - lo,
    {
        let mid = lo + (hi - lo) / 2;
        proof {
            assert(mid * mid < 0x1_0000_0000_0000_0000_0000_0000_0000_0000) by (nonlinear_arith)
                requires
                    mid < hi,
                    hi <= target + 1,
                    target <= usize::MAX,
                    usize::MAX < 0x1_0000_0000_0000_0000,
            ;
        }
        if mid * mid <= target {
            lo = mid;
        } else {
            hi = mid;
        }
    }
    proof {
        assert(hi == lo + 1);
        assert(lo <= n) by (nonlinear_arith)
            requires
                lo * lo <= n,
        ;
    }
    lo as usize
}

impl<T: Source> AutoCache<T> {
    /// Creates a cache over `source` that uses at most `mem_max` bytes of
    /// page memory, holding the whole source when it fits.
    pub fn new(source: T, mem_max: usize) -> (r: Result<Self, Error>)
        requires
            source.valid(),
        ensures
            mem_max == 0 ==> r is Err && r->Err_0 is ZeroCache,
            mem_max > 0 && source.reliable() ==> r is Ok,
            r is Ok ==> r->Ok_0.wf(),
            r is Ok ==> r->Ok_0.content() == source.content(),
            r is Ok && source.content().len() <= mem_max ==> r->Ok_0 is Full,
            r is Ok && source.content().len() <= mem_max ==> r->Ok_0.resident()
                == source.content().len(),
            r is Ok && source.content().len() > mem_max ==> r->Ok_0 is Swap,
            r is Ok && source.content().len() > mem_max ==> is_isqrt(
                mem_max as int,
                r->Ok_0->Swap_0.page_size() as int,
            ),
            r is Ok && source.content().len() > mem_max ==> r->Ok_0->Swap_0.frame_count()
                == frames_for(r->Ok_0->Swap_0.page_size() as int, mem_max as int),
            r is Ok && source.content().len() > mem_max ==> r->Ok_0.resident() <= mem_max,
            r is Ok && source.content().len() > mem_max ==> r->Ok_0.resident()
                == r->Ok_0->Swap_0.page_size() * r->Ok_0->Swap_0.frame_count(),
            r is Ok && source.reliable() ==> r->Ok_0.reliable(),
            r is Ok ==> r->Ok_0.rewinds() == source.reliable(),
    {
        if mem_max == 0 {
            return Err(Error::new_zero_cache("AutoCache configured with no memory"));
        }
        let mut source = source;
        let len = source.seek(SeekFrom::End(0))?;
        if len > mem_max as u64 {
            let page_sz = sqrt(mem_max);
            proof {
                assert(page_sz > 0) by (nonlinear_arith)
                    requires
                        mem_max >= 1,
                        mem_max < (page_sz + 1) * (page_sz + 1),
                ;
                assert(page_sz < usize::MAX) by (nonlinear_arith)
                    requires
                        page_sz * page_sz <= mem_max,
                        mem_max <= usize::MAX,
                        page_sz > 0,
                ;
            }
            let mut frame_count = page_sz + 1;
            let fits = match page_sz.checked_mul(frame_count) {
                Some(total) => total <= mem_max,
                None => false,
            };
            if !fits {
                frame_count = page_sz;
            }
            proof {
                assert(page_sz * frame_count <= mem_max) by (nonlinear_arith)
                    requires
                        page_sz * page_sz <= mem_max,
                        fits ==> page_sz * (page_sz + 1) <= mem_max,
                        frame_count == if fits {
                            page_sz + 1
                        } else {
                            page_sz as int
                        },
                ;
            }
            proof {
                if page_sz == 1 {
                    assert(frame_count <= 2);
                } else {
                    assert(2 * frame_count <= page_sz * frame_count) by (nonlinear_arith)
                        requires
                            page_sz >= 2,
                    ;
                }
            }
            let cache = SwapCache::new(source, page_sz, frame_count)?;
            Ok(AutoCache::Swap(cache))
        } else {
            let cache = FullCache::new(source)?;
            Ok(AutoCache::Full(cache))
        }
    }
}

impl<T: Source> Cache for AutoCache<T> {
    type Source = T;

    open spec fn wf(&self) -> bool {
        match self {
            AutoCache::Full(c) => c.wf(),
            AutoCache::Swap(c) => c.wf(),
        }
    }

    open spec fn content(&self) -> Seq<u8> {
        match self {
            AutoCache::Full(c) => c.content(),
            AutoCache::Swap(c) => c.content(),
        }
    }

    open spec fn resident(&self) -> nat {
        match self {
            AutoCache::Full(c) => c.resident(),
            AutoCache::Swap(c) => c.resident(),
        }
    }

    open spec fn reliable(&self) -> bool {
        match self {
            AutoCache::Full(c) => c.reliable(),
            AutoCache::Swap(c) => c.reliable(),
        }
    }

    open spec fn rewinds(&self) -> bool {
        match self {
            AutoCache::Full(c) => c.rewinds(),
            AutoCache::Swap(c) => c.rewinds(),
        }
    }

    fn into_inner(self) -> (r: Result<T, Error>) {
        match self {
            AutoCache::Full(c) => c.into_inner(),
            AutoCache::Swap(c) => c.into_inner(),
        }
    }

    fn len(&self) -> (n: u64) {
        match self {
            AutoCache::Full(c) => c.len(),
            AutoCache::Swap(c) => c.len(),
        }
    }

    fn cache_size(&self) -> (n: usize) {
        match self {
            AutoCache::Full(c) => c.cache_size(),
            AutoCache::Swap(c) => c.cache_size(),
        }
    }

    fn traverse_chunks<V: Visitor>(&mut self, start: u64, end: u64, visitor: &mut V) -> (r: Result<
        (),
        Error,
    >) {
        match self {
            AutoCache::Full(c) => c.traverse_chunks(start, end, visitor),
            AutoCache::Swap(c) => c.traverse_chunks(start, end, visitor),
        }
    }
}

} // verus!
