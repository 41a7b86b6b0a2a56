use std::cell::Cell;
use std::collections::VecDeque;
use std::rc::Rc;

use hxcvtr_file_cache::{ByteSource, Cache, Error, SeekFrom, Source, SwapCache, Visitor};

/// A source that counts the seeks made on it: after construction, every
/// page load of a swap cache starts with one seek.
struct CountingSource {
    inner: ByteSource,
    seeks: Rc<Cell<usize>>,
}

impl Source for CountingSource {
    fn seek(&mut self, from: SeekFrom) -> Result<u64, Error> {
        self.seeks.set(self.seeks.get() + 1);
        self.inner.seek(from)
    }

    fn read(&mut self, buf: &mut [u8]) -> Result<usize, Error> {
        self.inner.read(buf)
    }
}

/// A source whose reads fail once `fail` is set.
struct FlakySource {
    inner: ByteSource,
    fail: Rc<Cell<bool>>,
}

impl Source for FlakySource {
    fn seek(&mut self, from: SeekFrom) -> Result<u64, Error> {
        self.inner.seek(from)
    }

    fn read(&mut self, buf: &mut [u8]) -> Result<usize, Error> {
        if self.fail.get() {
            Err(Error::from_io(std::io::Error::new(std::io::ErrorKind::Other, "unplugged")))
        } else {
            self.inner.read(buf)
        }
    }
}

/// A visitor that records chunk lengths and refuses the chunk after `limit`.
struct Recorder {
    lengths: Vec<usize>,
    bytes: Vec<u8>,
    limit: usize,
}

impl Visitor for Recorder {
    fn visit(&mut self, chunk: &[u8]) -> Result<(), Error> {
        self.lengths.push(chunk.len());
        if self.lengths.len() > self.limit {
            return Err(Error::new_zero_cache("visitor stopped"));
        }
        self.bytes.extend_from_slice(chunk);
        Ok(())
    }
}

fn pattern(len: usize) -> Vec<u8> {
    (0..len).map(|i| (i * 13 % 256) as u8).collect()
}

#[test]
fn eviction_follows_least_recently_used() {
    let page = 16usize;
    let frames = 4usize;
    let len = page * 40;
    let seeks = Rc::new(Cell::new(0));
    let source = CountingSource { inner: ByteSource::new(pattern(len)), seeks: seeks.clone() };
    let mut cache = SwapCache::new(source, page, frames).ok().unwrap();
    seeks.set(0);

    // Shadow LRU: front = least recently used. Prefill leaves frame 0 most
    // recently used and the last frame least recently used.
    let mut shadow: VecDeque<usize> = (0..frames).rev().collect();
    let mut expected_loads = 0usize;
    let mut state: u64 = 7;
    let data = pattern(len);
    for _ in 0..2000 {
        state = state.wrapping_mul(6364136223846793005).wrapping_add(1442695040888963407);
        let p = ((state >> 33) % 8) as usize;
        let offset = p * page + ((state >> 13) % page as u64) as usize;
        if let Some(at) = shadow.iter().position(|q| *q == p) {
            shadow.remove(at);
        } else {
            shadow.pop_front();
            expected_loads += 1;
        }
        shadow.push_back(p);
        let mut buf = [0u8; 1];
        assert_eq!(cache.read(offset as u64, &mut buf).ok().unwrap(), 1);
        assert_eq!(buf[0], data[offset]);
        assert_eq!(seeks.get(), expected_loads);
    }
    assert!(expected_loads > 0);
}

#[test]
fn repeated_hits_load_nothing() {
    let seeks = Rc::new(Cell::new(0));
    let source = CountingSource { inner: ByteSource::new(pattern(100)), seeks: seeks.clone() };
    let mut cache = SwapCache::new(source, 10, 2).ok().unwrap();
    seeks.set(0);
    let mut buf = [0u8; 5];
    for _ in 0..10 {
        cache.read(3, &mut buf).ok().unwrap();
        cache.read(12, &mut buf).ok().unwrap();
    }
    assert_eq!(seeks.get(), 0);
    cache.read(55, &mut buf).ok().unwrap();
    assert_eq!(seeks.get(), 1);
}

#[test]
fn chunks_are_contiguous_and_ascending() {
    let data = pattern(100);
    let mut cache = SwapCache::new(ByteSource::new(data.clone()), 8, 3).ok().unwrap();
    let mut rec = Recorder { lengths: Vec::new(), bytes: Vec::new(), limit: usize::MAX };
    cache.traverse_chunks(13, 61, &mut rec).ok().unwrap();
    assert_eq!(rec.lengths, vec![3, 8, 8, 8, 8, 8, 5]);
    assert_eq!(rec.bytes, data[13..61].to_vec());
}

#[test]
fn visitor_failure_stops_traversal() {
    let data = pattern(100);
    let mut cache = SwapCache::new(ByteSource::new(data.clone()), 8, 3).ok().unwrap();
    let mut rec = Recorder { lengths: Vec::new(), bytes: Vec::new(), limit: 2 };
    let e = cache.traverse_chunks(0, 100, &mut rec).err().unwrap();
    assert!(e.is_zero_cache_error());
    assert_eq!(rec.lengths.len(), 3);
    assert_eq!(rec.bytes, data[0..16].to_vec());
}

#[test]
fn failed_load_surfaces_and_cache_recovers() {
    let data = pattern(200);
    let fail = Rc::new(Cell::new(false));
    let source = FlakySource { inner: ByteSource::new(data.clone()), fail: fail.clone() };
    let mut cache = SwapCache::new(source, 10, 2).ok().unwrap();
    let mut buf = [0u8; 10];
    fail.set(true);
    let e = cache.read(150, &mut buf).err().unwrap();
    assert!(e.is_io_error());
    // Resident pages are still served without touching the source.
    assert_eq!(cache.read(0, &mut buf).ok().unwrap(), 10);
    assert_eq!(buf.to_vec(), data[0..10].to_vec());
    fail.set(false);
    assert_eq!(cache.read(150, &mut buf).ok().unwrap(), 10);
    assert_eq!(buf.to_vec(), data[150..160].to_vec());
    let mut all = vec![0u8; 200];
    assert_eq!(cache.read(0, &mut all).ok().unwrap(), 200);
    assert_eq!(all, data);
}

#[test]
fn full_cache_hands_one_chunk_and_returns_refusal() {
    let data = pattern(100);
    let mut cache = hxcvtr_file_cache::FullCache::new(ByteSource::new(data.clone())).ok().unwrap();
    let mut rec = Recorder { lengths: Vec::new(), bytes: Vec::new(), limit: usize::MAX };
    cache.traverse_chunks(10, 500, &mut rec).ok().unwrap();
    assert_eq!(rec.lengths, vec![90]);
    assert_eq!(rec.bytes, data[10..].to_vec());
    let mut refuse = Recorder { lengths: Vec::new(), bytes: Vec::new(), limit: 0 };
    let e = cache.traverse_chunks(0, 100, &mut refuse).err().unwrap();
    assert!(e.is_zero_cache_error());
    assert_eq!(refuse.lengths, vec![100]);
}

#[test]
fn clamped_traversal_gives_identical_chunks() {
    let data = pattern(100);
    let mut cache = SwapCache::new(ByteSource::new(data), 8, 3).ok().unwrap();
    let mut a = Recorder { lengths: Vec::new(), bytes: Vec::new(), limit: usize::MAX };
    let mut b = Recorder { lengths: Vec::new(), bytes: Vec::new(), limit: usize::MAX };
    cache.traverse_chunks(5, 1000, &mut a).ok().unwrap();
    cache.traverse_chunks(5, 100, &mut b).ok().unwrap();
    assert_eq!(a.lengths, b.lengths);
    assert_eq!(a.bytes, b.bytes);
    assert!(a.lengths.iter().all(|n| *n >= 1 && *n <= 8));
}

#[test]
fn reader_past_end_reads_nothing() {
    let cache = SwapCache::new(ByteSource::new(pattern(30)), 4, 2).ok().unwrap();
    let mut reader = hxcvtr_file_cache::CacheReader::new(cache);
    reader.seek(SeekFrom::End(0)).ok().unwrap();
    let mut buf = [7u8; 4];
    assert_eq!(reader.read(&mut buf).ok().unwrap(), 0);
    assert_eq!(buf, [7u8; 4]);
    assert_eq!(reader.position(), 30);
}
