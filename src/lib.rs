//! Read-only byte-range caches over a seekable byte source.
//!
//! A [`FullCache`] holds the whole source in memory; a [`SwapCache`] keeps a
//! fixed set of page frames resident and pages the rest in on demand, evicting
//! the least recently used page; an [`AutoCache`] picks between the two from a
//! memory budget. A [`CacheReader`] presents any cache as a source again, so
//! caches can be stacked.
//!
//! Every cache hands out the bytes of a range as a run of chunks to a
//! [`Visitor`]; [`Cache::read`] copies them into a buffer.

mod auto_cache;
mod cache;
mod cache_reader;
mod error;
mod full_cache;
mod laws;
mod source;
mod swap_cache;

pub use auto_cache::{frames_for, is_isqrt, AutoCache};
pub use cache::{
    answers_owed, clamped_end, delivered, joined, read_into, read_len, refused, traversal_owed, Cache,
    ChunkCollector,
    Visitor,
};
pub use cache_reader::CacheReader;
pub use error::Error;
pub use full_cache::FullCache;
pub use laws::{
    chunk_start, lemma_chunks_in_order, lemma_clamped_chunks_agree, lemma_clamping,
    lemma_paged_chunks_unique, lemma_read_idempotent, lemma_round_trip,
    lemma_traverse_to_end,
};
pub use source::{seek_target, ByteSource, SeekFrom, Source};
pub use swap_cache::{lru_touch, lru_touch_range, paged_chunks, SwapCache};
