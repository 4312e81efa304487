use std::cell::Cell;
use std::rc::Rc;
use wt_cache::{BackingStore, CacheError, MemoryStore, StoreFault, WriteThroughCache};

/// A store in memory that counts what reaches it and fails on demand.
struct ProbeStore {
    inner: MemoryStore,
    reads: Rc<Cell<usize>>,
    writes: Rc<Cell<usize>>,
    fail_reads: Rc<Cell<bool>>,
    fail_writes: Rc<Cell<bool>>,
}

struct Probe {
    reads: Rc<Cell<usize>>,
    writes: Rc<Cell<usize>>,
    fail_reads: Rc<Cell<bool>>,
    fail_writes: Rc<Cell<bool>>,
}

fn probe_store(bytes: Vec<u8>) -> (ProbeStore, Probe) {
    let probe = Probe {
        reads: Rc::new(Cell::new(0)),
        writes: Rc::new(Cell::new(0)),
        fail_reads: Rc::new(Cell::new(false)),
        fail_writes: Rc::new(Cell::new(false)),
    };
    let store = ProbeStore {
        inner: MemoryStore::from_bytes(bytes),
        reads: probe.reads.clone(),
        writes: probe.writes.clone(),
        fail_reads: probe.fail_reads.clone(),
        fail_writes: probe.fail_writes.clone(),
    };
    (store, probe)
}

impl BackingStore for ProbeStore {
    fn len(&self) -> u64 {
        self.inner.len()
    }

    fn read_at(&self, offset: u64, len: usize) -> Result<Vec<u8>, StoreFault> {
        self.reads.set(self.reads.get() + 1);
        if self.fail_reads.get() {
            return Err(StoreFault);
        }
        self.inner.read_at(offset, len)
    }

    fn write_at(&mut self, offset: u64, data: &[u8]) -> Result<(), StoreFault> {
        self.writes.set(self.writes.get() + 1);
        if self.fail_writes.get() {
            return Err(StoreFault);
        }
        self.inner.write_at(offset, data)
    }
}

fn small_cache(pages: usize) -> WriteThroughCache<MemoryStore> {
    WriteThroughCache::new(MemoryStore::new(), Some(512), Some(pages * 512)).unwrap()
}

#[test]
fn logical_length_starts_at_the_store_length() {
    let store = MemoryStore::from_bytes(vec![9; 1024]);
    let mut cache = WriteThroughCache::new(store, Some(512), Some(1024)).unwrap();
    assert_eq!(cache.logical_length(), 1024);
    assert_eq!(cache.read(0, 1024).unwrap(), vec![9; 1024]);
    assert_eq!(cache.read(100, 700).unwrap(), vec![9; 700]);
}

#[test]
fn page_that_reaches_beyond_the_length_is_out_of_range() {
    let store = MemoryStore::from_bytes(vec![9; 700]);
    let mut cache = WriteThroughCache::new(store, Some(512), Some(1024)).unwrap();
    assert_eq!(cache.logical_length(), 700);
    assert_eq!(cache.read(0, 512).unwrap(), vec![9; 512]);
    assert_eq!(cache.read(512, 100), Err(CacheError::OutOfRange));
    assert_eq!(cache.read(600, 1), Err(CacheError::OutOfRange));
}

#[test]
fn read_that_runs_out_of_range_keeps_the_earlier_pages_touched() {
    let store = MemoryStore::from_bytes(vec![9; 1024]);
    let mut cache = WriteThroughCache::new(store, Some(512), Some(2048)).unwrap();
    assert_eq!(cache.read(0, 2048), Err(CacheError::OutOfRange));
    assert_eq!(cache.pages_by_recency(), vec![0, 1]);
    assert!(cache.is_resident(0));
    assert!(cache.is_resident(1));
    assert!(!cache.is_resident(2));
    assert_eq!(cache.logical_length(), 1024);
}

#[test]
fn read_beyond_the_length_is_out_of_range_and_touches_nothing() {
    let mut cache = small_cache(2);
    cache.write(0, &[1; 512]).unwrap();
    assert_eq!(cache.read(512, 1), Err(CacheError::OutOfRange));
    assert_eq!(cache.read(10_000, 512), Err(CacheError::OutOfRange));
    assert_eq!(cache.pages_by_recency(), vec![0]);
}

#[test]
fn read_at_the_top_of_the_address_space_is_out_of_range() {
    let mut cache = small_cache(2);
    cache.write(0, &[1; 512]).unwrap();
    assert_eq!(cache.read(u64::MAX, 1), Err(CacheError::OutOfRange));
    assert_eq!(cache.read(u64::MAX - 10, 100), Err(CacheError::OutOfRange));
    assert_eq!(cache.read(0, usize::MAX), Err(CacheError::OutOfRange));
}

#[test]
fn empty_read_succeeds_anywhere() {
    let mut cache = small_cache(2);
    assert_eq!(cache.read(0, 0), Ok(vec![]));
    assert_eq!(cache.read(123_456, 0), Ok(vec![]));
    assert_eq!(cache.read(u64::MAX, 0), Ok(vec![]));
    assert_eq!(cache.pages_by_recency(), Vec::<u64>::new());
}

#[test]
fn empty_write_changes_nothing() {
    let mut cache = small_cache(2);
    assert_eq!(cache.write(0, &[]), Ok(()));
    assert_eq!(cache.write(123_456, &[]), Ok(()));
    assert_eq!(cache.logical_length(), 0);
    assert_eq!(cache.pages_by_recency(), Vec::<u64>::new());
    assert_eq!(cache.store().to_bytes(), Vec::<u8>::new());
    cache.write(0, &[5; 512]).unwrap();
    assert_eq!(cache.write(7, &[]), Ok(()));
    assert_eq!(cache.store().to_bytes(), vec![5; 512]);
}

#[test]
fn write_reaches_the_store_as_whole_pages() {
    let mut cache = small_cache(2);
    cache.write(0, &[1; 10]).unwrap();
    assert_eq!(cache.logical_length(), 512);
    let mut expected = vec![1u8; 10];
    expected.resize(512, 0);
    assert_eq!(cache.store().to_bytes(), expected);
    assert_eq!(cache.read(0, 512).unwrap(), expected);
}

#[test]
fn rest_of_a_partly_written_page_reads_as_zero() {
    let mut cache = small_cache(2);
    cache.write(100, &[7; 50]).unwrap();
    assert_eq!(cache.read(0, 100).unwrap(), vec![0; 100]);
    assert_eq!(cache.read(100, 50).unwrap(), vec![7; 50]);
    assert_eq!(cache.read(150, 362).unwrap(), vec![0; 362]);
}

#[test]
fn gap_before_a_write_beyond_the_end_reads_as_zero() {
    let mut cache = small_cache(2);
    cache.write(2000, &[3; 10]).unwrap();
    assert_eq!(cache.logical_length(), 2048);
    assert_eq!(cache.read(0, 1536).unwrap(), vec![0; 1536]);
    let mut last = vec![0u8; 512];
    for b in last[464..474].iter_mut() {
        *b = 3;
    }
    assert_eq!(cache.read(1536, 512).unwrap(), last);
    assert_eq!(cache.store().to_bytes().len(), 2048);
}

#[test]
fn second_write_to_a_page_keeps_the_first() {
    let mut cache = small_cache(2);
    cache.write(0, &[1; 100]).unwrap();
    cache.write(200, &[2; 100]).unwrap();
    let got = cache.read(0, 512).unwrap();
    assert_eq!(&got[..100], &[1; 100][..]);
    assert_eq!(&got[100..200], &[0; 100][..]);
    assert_eq!(&got[200..300], &[2; 100][..]);
    assert_eq!(&got[300..], &[0; 212][..]);
}

#[test]
fn later_write_wins_where_writes_overlap() {
    let mut cache = small_cache(2);
    cache.write(0, &[1; 600]).unwrap();
    cache.write(500, &[2; 50]).unwrap();
    let got = cache.read(0, 600).unwrap();
    assert_eq!(&got[..500], &[1; 500][..]);
    assert_eq!(&got[500..550], &[2; 50][..]);
    assert_eq!(&got[550..], &[1; 50][..]);
}

#[test]
fn writes_that_do_not_overlap_all_read_back() {
    let mut cache = small_cache(2);
    let a: Vec<u8> = (0..700u32).map(|i| (i % 251) as u8).collect();
    let b: Vec<u8> = (0..300u32).map(|i| (i % 13) as u8 + 1).collect();
    let c: Vec<u8> = (0..1500u32).map(|i| (i % 7) as u8 + 100).collect();
    cache.write(5000, &c).unwrap();
    cache.write(10, &a).unwrap();
    cache.write(900, &b).unwrap();
    assert_eq!(cache.read(10, 700).unwrap(), a);
    assert_eq!(cache.read(900, 300).unwrap(), b);
    assert_eq!(cache.read(5000, 1500).unwrap(), c);
    assert_eq!(cache.read(900, 300).unwrap(), b);
    assert_eq!(cache.read(710, 190).unwrap(), vec![0; 190]);
}

#[test]
fn write_into_a_partial_last_page_rebuilds_it_from_zeros() {
    let store = MemoryStore::from_bytes(vec![9; 700]);
    let mut cache = WriteThroughCache::new(store, Some(512), Some(1024)).unwrap();
    cache.write(600, &[1; 10]).unwrap();
    assert_eq!(cache.logical_length(), 1024);
    let mut expected = vec![9u8; 512];
    expected.resize(600, 0);
    expected.resize(610, 1);
    expected.resize(1024, 0);
    assert_eq!(cache.store().to_bytes(), expected);
    assert_eq!(cache.read(0, 1024).unwrap(), expected);
}

#[test]
fn oldest_page_leaves_when_the_budget_is_full() {
    let mut cache = small_cache(3);
    for p in 0..4u64 {
        cache.write(p * 512, &[p as u8 + 1; 512]).unwrap();
    }
    assert!(!cache.is_resident(0));
    assert!(cache.is_resident(1));
    assert!(cache.is_resident(2));
    assert!(cache.is_resident(3));
    assert_eq!(cache.pages_by_recency(), vec![1, 2, 3]);
    assert_eq!(cache.read(0, 512).unwrap(), vec![1; 512]);
    assert_eq!(cache.pages_by_recency(), vec![2, 3, 0]);
    assert_eq!(cache.read(512, 512).unwrap(), vec![2; 512]);
    assert_eq!(cache.read(1024, 512).unwrap(), vec![3; 512]);
    assert_eq!(cache.read(1536, 512).unwrap(), vec![4; 512]);
}

#[test]
fn page_read_again_outlives_the_one_that_was_not() {
    let mut cache = small_cache(2);
    cache.write(0, &[1; 512]).unwrap();
    cache.write(512, &[2; 512]).unwrap();
    assert_eq!(cache.pages_by_recency(), vec![0, 1]);
    cache.read(0, 512).unwrap();
    assert_eq!(cache.pages_by_recency(), vec![1, 0]);
    cache.write(1024, &[3; 512]).unwrap();
    assert_eq!(cache.pages_by_recency(), vec![0, 2]);
    assert!(cache.is_resident(0));
    assert!(!cache.is_resident(1));
    assert!(cache.is_resident(2));
    assert_eq!(cache.read(0, 512).unwrap(), vec![1; 512]);
    assert_eq!(cache.read(512, 512).unwrap(), vec![2; 512]);
    assert_eq!(cache.read(1024, 512).unwrap(), vec![3; 512]);
}

#[test]
fn rewritten_page_outlives_the_one_that_was_not() {
    let mut cache = small_cache(2);
    cache.write(0, &[1; 512]).unwrap();
    cache.write(512, &[2; 512]).unwrap();
    cache.write(10, &[9; 1]).unwrap();
    cache.write(1024, &[3; 512]).unwrap();
    assert_eq!(cache.pages_by_recency(), vec![0, 2]);
}

#[test]
fn budget_below_one_page_keeps_the_last_page_only() {
    let mut cache = WriteThroughCache::new(MemoryStore::new(), Some(1024), Some(512)).unwrap();
    cache.write(0, &[1; 1024]).unwrap();
    assert_eq!(cache.pages_by_recency(), vec![0]);
    cache.write(1024, &[2; 1024]).unwrap();
    assert_eq!(cache.pages_by_recency(), vec![1]);
    assert_eq!(cache.read(0, 2048).unwrap(), [vec![1; 1024], vec![2; 1024]].concat());
}

#[test]
fn budget_counts_whole_pages() {
    let mut cache = WriteThroughCache::new(MemoryStore::new(), Some(512), Some(1300)).unwrap();
    cache.write(0, &[1; 1536]).unwrap();
    assert_eq!(cache.pages_by_recency(), vec![1, 2]);
}

#[test]
fn write_of_exactly_the_capacity_reads_back() {
    let mut cache = small_cache(8);
    let data: Vec<u8> = (0..4096u32).map(|i| (i % 253) as u8).collect();
    assert_eq!(cache.write(0, &data), Ok(()));
    assert_eq!(cache.pages_by_recency().len(), 8);
    assert_eq!(cache.read(0, 4096).unwrap(), data);
    assert_eq!(cache.store().to_bytes(), data);
}

#[test]
fn write_larger_than_the_capacity_reads_back() {
    let mut cache = small_cache(2);
    let data: Vec<u8> = (0..5000u32).map(|i| (i % 251) as u8).collect();
    cache.write(300, &data).unwrap();
    assert_eq!(cache.pages_by_recency(), vec![9, 10]);
    assert_eq!(cache.read(300, 5000).unwrap(), data);
}

#[test]
fn returned_bytes_are_a_copy() {
    let mut cache = small_cache(2);
    cache.write(0, &[1; 512]).unwrap();
    let mut got = cache.read(0, 512).unwrap();
    got[0] = 99;
    assert_eq!(cache.read(0, 512).unwrap(), vec![1; 512]);
    let mut page = cache.read_page(0).unwrap();
    page[1] = 98;
    assert_eq!(cache.read_page(0).unwrap(), vec![1; 512]);
}

#[test]
fn read_page_and_load_page_hand_out_whole_pages() {
    let store = MemoryStore::from_bytes((0..1024u32).map(|i| (i / 512) as u8 + 1).collect());
    let mut cache = WriteThroughCache::new(store, Some(512), Some(1024)).unwrap();
    assert_eq!(cache.load_page(1), Ok(vec![2; 512]));
    assert_eq!(cache.pages_by_recency(), Vec::<u64>::new());
    assert_eq!(cache.read_page(1), Ok(vec![2; 512]));
    assert_eq!(cache.pages_by_recency(), vec![1]);
    assert_eq!(cache.load_page(2), Err(CacheError::OutOfRange));
    assert_eq!(cache.read_page(2), Err(CacheError::OutOfRange));
    assert_eq!(cache.read_page(u64::MAX), Err(CacheError::OutOfRange));
}

#[test]
fn write_page_extends_the_length_to_the_page_end() {
    let mut cache = small_cache(2);
    assert_eq!(cache.write_page(2, &[4; 512]), Ok(()));
    assert_eq!(cache.logical_length(), 1536);
    assert_eq!(cache.pages_by_recency(), vec![2]);
    assert_eq!(cache.read(0, 1536).unwrap(), [vec![0; 1024], vec![4; 512]].concat());
    assert_eq!(cache.write_page(0, &[1; 512]), Ok(()));
    assert_eq!(cache.logical_length(), 1536);
}

#[test]
fn resident_page_is_served_without_the_store() {
    let (store, probe) = probe_store(vec![]);
    let mut cache = WriteThroughCache::new(store, Some(512), Some(1024)).unwrap();
    cache.write(0, &[1; 512]).unwrap();
    cache.write(512, &[2; 512]).unwrap();
    assert_eq!(probe.writes.get(), 2);
    let reads_before = probe.reads.get();
    assert_eq!(cache.read(0, 1024).unwrap(), [vec![1; 512], vec![2; 512]].concat());
    assert_eq!(cache.read(100, 50).unwrap(), vec![1; 50]);
    assert_eq!(probe.reads.get(), reads_before);
    cache.write(1024, &[3; 512]).unwrap();
    assert_eq!(cache.read(0, 512).unwrap(), vec![1; 512]);
    assert_eq!(probe.reads.get(), reads_before);
    assert_eq!(cache.read(512, 512).unwrap(), vec![2; 512]);
    assert_eq!(probe.reads.get(), reads_before + 1);
}

#[test]
fn failing_store_read_is_an_io_failure() {
    let (store, probe) = probe_store(vec![9; 1024]);
    let mut cache = WriteThroughCache::new(store, Some(512), Some(1024)).unwrap();
    assert_eq!(cache.read(0, 512).unwrap(), vec![9; 512]);
    probe.fail_reads.set(true);
    assert_eq!(cache.read(0, 1024), Err(CacheError::IoFailure));
    assert_eq!(cache.pages_by_recency(), vec![0]);
    assert_eq!(cache.read(0, 512).unwrap(), vec![9; 512]);
    assert_eq!(cache.read(2048, 1), Err(CacheError::OutOfRange));
    probe.fail_reads.set(false);
    assert_eq!(cache.read(0, 1024).unwrap(), vec![9; 1024]);
}

#[test]
fn failing_store_read_stops_a_write() {
    let (store, probe) = probe_store(vec![9; 1024]);
    let mut cache = WriteThroughCache::new(store, Some(512), Some(1024)).unwrap();
    probe.fail_reads.set(true);
    assert_eq!(cache.write(10, &[1; 4]), Err(CacheError::IoFailure));
    assert_eq!(probe.writes.get(), 0);
    assert_eq!(cache.pages_by_recency(), Vec::<u64>::new());
    assert_eq!(cache.write(1024, &[1; 4]), Ok(()));
    assert_eq!(probe.writes.get(), 1);
}

#[test]
fn failing_store_write_leaves_the_cache_as_it_was() {
    let (store, probe) = probe_store(vec![]);
    let mut cache = WriteThroughCache::new(store, Some(512), Some(1024)).unwrap();
    cache.write(0, &[1; 512]).unwrap();
    probe.fail_writes.set(true);
    assert_eq!(cache.write(0, &[2; 512]), Err(CacheError::IoFailure));
    assert_eq!(cache.write(512, &[2; 512]), Err(CacheError::IoFailure));
    assert_eq!(cache.logical_length(), 512);
    assert_eq!(cache.pages_by_recency(), vec![0]);
    assert_eq!(cache.read(0, 512).unwrap(), vec![1; 512]);
    assert_eq!(cache.read(512, 1), Err(CacheError::OutOfRange));
    probe.fail_writes.set(false);
    assert_eq!(cache.write(0, &[2; 512]), Ok(()));
    assert_eq!(cache.read(0, 512).unwrap(), vec![2; 512]);
}

#[test]
fn write_that_fails_midway_keeps_the_pages_already_written() {
    let store = MemoryStore::with_limit(1024);
    let mut cache = WriteThroughCache::new(store, Some(512), Some(4096)).unwrap();
    assert_eq!(cache.write(100, &[5; 1500]), Err(CacheError::IoFailure));
    assert_eq!(cache.logical_length(), 1024);
    assert_eq!(cache.pages_by_recency(), vec![0, 1]);
    let mut expected = vec![0u8; 100];
    expected.resize(1024, 5);
    assert_eq!(cache.store().to_bytes(), expected);
    assert_eq!(cache.read(0, 1024).unwrap(), expected);
    assert_eq!(cache.read(1024, 1), Err(CacheError::OutOfRange));
}

#[test]
fn store_holds_every_write_before_write_returns() {
    let mut cache = small_cache(1);
    let data: Vec<u8> = (0..2000u32).map(|i| (i % 199) as u8 + 1).collect();
    cache.write(0, &data).unwrap();
    let held = cache.store().to_bytes();
    assert_eq!(held.len(), 2048);
    assert_eq!(&held[..2000], &data[..]);
    assert_eq!(&held[2000..], &[0; 48][..]);
}

#[test]
fn fresh_cache_over_a_written_store_reads_the_same_bytes() {
    let mut cache = small_cache(2);
    let data: Vec<u8> = (0..1300u32).map(|i| (i % 97) as u8).collect();
    cache.write(700, &data).unwrap();
    let bytes = cache.store().to_bytes();
    let mut again =
        WriteThroughCache::new(MemoryStore::from_bytes(bytes), Some(512), Some(1024)).unwrap();
    assert_eq!(again.logical_length(), 2048);
    assert_eq!(again.pages_by_recency(), Vec::<u64>::new());
    assert_eq!(again.read(700, 1300).unwrap(), data);
}
