use hxcvtr_file_cache::{
    AutoCache, ByteSource, Cache, CacheReader, ChunkCollector, Error, FullCache, SeekFrom,
    Source, SwapCache,
};

const TEXT_LEN: usize = 610000;

const SWAP_TEST_PAGE_SZ: usize = 50;
const SWAP_TEST_FRAMES: usize = 50;

const L1_SWAP_TEST_PAGE_SZ: usize = 25;
const L1_SWAP_TEST_FRAMES: usize = 25;
const L2_SWAP_TEST_PAGE_SZ: usize = 100;
const L2_SWAP_TEST_FRAMES: usize = 100;

/// A fixed 610 000-byte text: lines of words drawn from a small vocabulary
/// by a linear congruential generator, so no two pages look alike.
fn test_text() -> Vec<u8> {
    let words: [&str; 12] = [
        "river", "raft", "stone", "bridge", "island", "night", "town", "field", "fog", "canoe",
        "shore", "lamp",
    ];
    let mut out: Vec<u8> = Vec::with_capacity(TEXT_LEN);
    let mut state: u64 = 12345;
    let mut col: usize = 0;
    while out.len() < TEXT_LEN {
        state = state.wrapping_mul(6364136223846793005).wrapping_add(1442695040888963407);
        let w = words[((state >> 33) % 12) as usize];
        out.extend_from_slice(w.as_bytes());
        col += w.len() + 1;
        if col > 70 {
            out.push(b'\n');
            col = 0;
        } else {
            out.push(b' ');
        }
    }
    out.truncate(TEXT_LEN);
    out
}

fn new_test_source() -> ByteSource {
    ByteSource::new(test_text())
}

fn test_full_cache() -> FullCache<ByteSource> {
    FullCache::new(new_test_source()).ok().unwrap()
}

fn test_swap_cache() -> SwapCache<ByteSource> {
    SwapCache::new(new_test_source(), SWAP_TEST_PAGE_SZ, SWAP_TEST_FRAMES).ok().unwrap()
}

fn test_auto_cache_swap() -> AutoCache<ByteSource> {
    AutoCache::new(new_test_source(), SWAP_TEST_PAGE_SZ * SWAP_TEST_FRAMES).ok().unwrap()
}

fn test_auto_cache_full() -> AutoCache<ByteSource> {
    AutoCache::new(new_test_source(), TEXT_LEN).ok().unwrap()
}

fn test_layered_cache() -> SwapCache<CacheReader<SwapCache<ByteSource>>> {
    let inner = SwapCache::new(new_test_source(), L2_SWAP_TEST_PAGE_SZ, L2_SWAP_TEST_FRAMES)
        .ok()
        .unwrap();
    SwapCache::new(CacheReader::new(inner), L1_SWAP_TEST_PAGE_SZ, L1_SWAP_TEST_FRAMES).ok().unwrap()
}

#[test]
fn full_cache_init_test() {
    let cache = test_full_cache();
    assert_eq!(cache.len(), TEXT_LEN as u64);
    assert_eq!(cache.cache_size(), TEXT_LEN);
}

#[test]
fn swap_cache_init_test() {
    let cache = test_swap_cache();
    assert_eq!(cache.len(), TEXT_LEN as u64);
    assert_eq!(cache.cache_size(), SWAP_TEST_PAGE_SZ * SWAP_TEST_FRAMES);
}

#[test]
fn auto_cache_full_init_test() {
    let cache = test_auto_cache_full();
    assert_eq!(cache.len(), TEXT_LEN as u64);
    assert_eq!(cache.cache_size(), TEXT_LEN);
}

#[test]
fn auto_cache_swap_init_test() {
    let cache = test_auto_cache_swap();
    assert_eq!(cache.len(), TEXT_LEN as u64);
    assert_eq!(cache.cache_size(), SWAP_TEST_PAGE_SZ * SWAP_TEST_FRAMES);
}

#[test]
fn layered_cache_swap_init_test() {
    let cache = test_layered_cache();
    assert_eq!(cache.len(), TEXT_LEN as u64);
    assert_eq!(cache.cache_size(), L1_SWAP_TEST_PAGE_SZ * L1_SWAP_TEST_FRAMES);
}

fn general_test_1<C: Cache>(mut cache: C) {
    let text = test_text();
    let mut buf = vec![0; TEXT_LEN];

    let count = cache.read(0, &mut buf).ok().unwrap();
    assert_eq!(count, TEXT_LEN);
    assert_eq!(buf, text);

    let count = cache.read(0, &mut buf).ok().unwrap();
    assert_eq!(count, TEXT_LEN);
    assert_eq!(buf, text);
}

#[test]
fn full_cache_general_test_1() {
    general_test_1(test_full_cache());
}

#[test]
fn swap_cache_general_test_1() {
    general_test_1(test_swap_cache());
}

#[test]
fn auto_cache_full_general_test_1() {
    general_test_1(test_auto_cache_full());
}

#[test]
fn auto_cache_swap_general_test_1() {
    general_test_1(test_auto_cache_swap());
}

#[test]
fn layered_cache_general_test_1() {
    general_test_1(test_layered_cache());
}

fn collect<C: Cache>(cache: &mut C, start: u64, end: u64) -> Vec<u8> {
    let mut sink = ChunkCollector::new();
    cache.traverse_chunks(start, end, &mut sink).ok().unwrap();
    sink.into_bytes()
}

fn small_source(len: usize) -> ByteSource {
    let bytes: Vec<u8> = (0..len).map(|i| (i * 7 % 251) as u8).collect();
    ByteSource::new(bytes)
}

#[test]
fn round_trip_through_traversal_for_every_variant() {
    let text = test_text();
    assert_eq!(collect(&mut test_full_cache(), 0, TEXT_LEN as u64), text);
    assert_eq!(collect(&mut test_swap_cache(), 0, TEXT_LEN as u64), text);
    assert_eq!(collect(&mut test_auto_cache_swap(), 0, TEXT_LEN as u64), text);
    assert_eq!(collect(&mut test_auto_cache_full(), 0, TEXT_LEN as u64), text);
    assert_eq!(collect(&mut test_layered_cache(), 0, TEXT_LEN as u64), text);
}

#[test]
fn single_frame_still_round_trips() {
    let mut cache = SwapCache::new(small_source(1000), 7, 1).ok().unwrap();
    let expected: Vec<u8> = (0..1000usize).map(|i| (i * 7 % 251) as u8).collect();
    assert_eq!(collect(&mut cache, 0, 1000), expected);
    assert_eq!(collect(&mut cache, 0, 1000), expected);
    assert_eq!(collect(&mut cache, 993, 1000), expected[993..].to_vec());
}

#[test]
fn short_tail_delivers_no_pad_bytes() {
    let mut cache = SwapCache::new(small_source(103), 10, 3).ok().unwrap();
    let expected: Vec<u8> = (0..103usize).map(|i| (i * 7 % 251) as u8).collect();
    let tail = collect(&mut cache, 95, u64::MAX);
    assert_eq!(tail.len(), 8);
    assert_eq!(tail, expected[95..].to_vec());
    let mut buf = vec![0xAA; 20];
    let n = cache.read(97, &mut buf).ok().unwrap();
    assert_eq!(n, 6);
    assert_eq!(buf[..6].to_vec(), expected[97..].to_vec());
    assert!(buf[6..].iter().all(|b| *b == 0xAA));
}

#[test]
fn clamped_end_matches_source_end() {
    let mut cache = test_swap_cache();
    let past = collect(&mut cache, 609_990, 2_000_000);
    let exact = collect(&mut cache, 609_990, TEXT_LEN as u64);
    assert_eq!(past, exact);
    assert_eq!(past.len(), 10);
    assert!(collect(&mut cache, TEXT_LEN as u64, u64::MAX).is_empty());
    assert!(collect(&mut cache, 700_000, 800_000).is_empty());
    assert!(collect(&mut cache, 500, 500).is_empty());
}

#[test]
fn read_at_length_returns_zero_for_every_variant() {
    let mut buf = [0x5Au8; 1];
    assert_eq!(test_full_cache().read(TEXT_LEN as u64, &mut buf).ok().unwrap(), 0);
    assert_eq!(test_swap_cache().read(TEXT_LEN as u64, &mut buf).ok().unwrap(), 0);
    assert_eq!(test_auto_cache_swap().read(TEXT_LEN as u64, &mut buf).ok().unwrap(), 0);
    assert_eq!(test_auto_cache_full().read(TEXT_LEN as u64, &mut buf).ok().unwrap(), 0);
    assert_eq!(test_layered_cache().read(TEXT_LEN as u64, &mut buf).ok().unwrap(), 0);
    assert_eq!(buf[0], 0x5A);
}

#[test]
fn random_access_reads_agree_with_source() {
    let text = test_text();
    let mut cache = SwapCache::new(new_test_source(), 64, 4).ok().unwrap();
    let mut state: u64 = 99;
    for _ in 0..500 {
        state = state.wrapping_mul(6364136223846793005).wrapping_add(1);
        let offset = ((state >> 20) % (TEXT_LEN as u64 + 100)) as usize;
        let mut buf = vec![0u8; 300];
        let n = cache.read(offset as u64, &mut buf).ok().unwrap();
        let expect_n = if offset >= TEXT_LEN { 0 } else { (TEXT_LEN - offset).min(300) };
        assert_eq!(n, expect_n);
        assert_eq!(buf[..n].to_vec(), text[offset..offset + n].to_vec());
    }
    assert_eq!(cache.len(), TEXT_LEN as u64);
    assert_eq!(cache.cache_size(), 256);
}

#[test]
fn into_inner_rewinds_the_source() {
    let mut cache = test_swap_cache();
    let mut buf = vec![0u8; 1000];
    cache.read(5000, &mut buf).ok().unwrap();
    let source = cache.into_inner().ok().unwrap();
    assert_eq!(source.position(), 0);
    assert_eq!(source.into_bytes(), test_text());

    let full = test_full_cache();
    let source = full.into_inner().ok().unwrap();
    assert_eq!(source.position(), 0);

    let auto = test_auto_cache_swap();
    assert_eq!(auto.into_inner().ok().unwrap().position(), 0);
}

#[test]
fn zero_configurations_are_refused() {
    let e = SwapCache::new(small_source(10), 0, 4).err().unwrap();
    assert!(e.is_zero_cache_error());
    assert!(!e.is_io_error());
    assert!(!e.is_poison_error());
    let e = SwapCache::new(small_source(10), 4, 0).err().unwrap();
    assert!(e.is_zero_cache_error());
    let e = AutoCache::new(small_source(10), 0).err().unwrap();
    assert!(e.is_zero_cache_error());
}

#[test]
fn error_predicates_tell_kinds_apart() {
    let e = Error::from_poison(String::from("lock poisoned"));
    assert!(e.is_poison_error());
    assert!(!e.is_zero_cache_error());
    let e = Error::from_io(std::io::Error::new(std::io::ErrorKind::Other, "disk"));
    assert!(e.is_io_error());
    assert!(!e.is_poison_error());
    let e = Error::new_zero_cache("none");
    assert!(e.is_zero_cache_error());
}

#[test]
fn auto_cache_picks_layout_from_budget() {
    match AutoCache::new(new_test_source(), 2500).ok().unwrap() {
        AutoCache::Swap(c) => assert_eq!(c.cache_size(), 2500),
        AutoCache::Full(_) => panic!("expected the paged variant"),
    }
    match AutoCache::new(new_test_source(), 2550).ok().unwrap() {
        AutoCache::Swap(c) => assert_eq!(c.cache_size(), 2550),
        AutoCache::Full(_) => panic!("expected the paged variant"),
    }
    match AutoCache::new(small_source(1000), 99).ok().unwrap() {
        AutoCache::Swap(c) => assert_eq!(c.cache_size(), 90),
        AutoCache::Full(_) => panic!("expected the paged variant"),
    }
    match AutoCache::new(new_test_source(), TEXT_LEN).ok().unwrap() {
        AutoCache::Full(c) => assert_eq!(c.cache_size(), TEXT_LEN),
        AutoCache::Swap(_) => panic!("expected the full variant"),
    }
    match AutoCache::new(small_source(10), 1).ok().unwrap() {
        AutoCache::Swap(c) => assert_eq!(c.cache_size(), 1),
        AutoCache::Full(_) => panic!("expected the paged variant"),
    }
}

#[test]
fn reader_seeks_saturate() {
    let mut reader = CacheReader::new(FullCache::new(small_source(100)).ok().unwrap());
    assert_eq!(reader.position(), 0);
    assert_eq!(reader.seek(SeekFrom::Start(250)).ok().unwrap(), 100);
    assert_eq!(reader.seek(SeekFrom::Current(-30)).ok().unwrap(), 70);
    assert_eq!(reader.seek(SeekFrom::Current(-500)).ok().unwrap(), 0);
    assert_eq!(reader.seek(SeekFrom::End(-5)).ok().unwrap(), 95);
    assert_eq!(reader.seek(SeekFrom::End(7)).ok().unwrap(), 100);
    assert_eq!(reader.seek(SeekFrom::Current(i64::MIN)).ok().unwrap(), 0);
    assert_eq!(reader.seek(SeekFrom::Start(40)).ok().unwrap(), 40);
    assert_eq!(reader.position(), 40);
}

#[test]
fn reader_reads_advance_position() {
    let mut reader = CacheReader::new(SwapCache::new(small_source(100), 8, 2).ok().unwrap());
    let mut buf = [0u8; 30];
    assert_eq!(reader.read(&mut buf).ok().unwrap(), 30);
    assert_eq!(buf[29], (29 * 7 % 251) as u8);
    assert_eq!(reader.position(), 30);
    reader.seek(SeekFrom::Start(90)).ok().unwrap();
    assert_eq!(reader.read(&mut buf).ok().unwrap(), 10);
    assert_eq!(buf[0], (90 * 7 % 251) as u8);
    assert_eq!(reader.position(), 100);
    assert_eq!(reader.read(&mut buf).ok().unwrap(), 0);
    assert_eq!(reader.cache().len(), 100);
    let cache = reader.into_inner();
    assert_eq!(cache.cache_size(), 16);
}

#[test]
fn byte_source_reads_and_seeks() {
    let mut source = small_source(20);
    let mut buf = [0u8; 8];
    assert_eq!(source.read(&mut buf).ok().unwrap(), 8);
    assert_eq!(buf[7], 49);
    assert_eq!(source.seek(SeekFrom::End(-3)).ok().unwrap(), 17);
    assert_eq!(source.read(&mut buf).ok().unwrap(), 3);
    assert_eq!(source.read(&mut buf).ok().unwrap(), 0);
    assert_eq!(source.position(), 20);
}
