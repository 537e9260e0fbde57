use bytes::Bytes;
use range_cache::fetch::{FetchTable, Turn};
use range_cache::plan::{assemble, gaps};
use range_cache::reader::{conclude, deliver};
use range_cache::{
    CacheCapacity, CacheKey, InsertOutcome, Invalidation, NonZeroUsize, RangeCache, RangeError,
    RangeStore, ReadError, ReaderConfig,
};

const UNBOUNDED: CacheCapacity = CacheCapacity::Unbounded;

fn number(value: usize) -> NonZeroUsize {
    NonZeroUsize::new(value).expect("test number is non-zero")
}

fn bounded(bytes: usize) -> CacheCapacity {
    CacheCapacity::Bounded(number(bytes))
}

fn store(entries: &[(u8, usize, &'static [u8])]) -> RangeStore<u8> {
    let mut store = RangeStore::new();
    for &(key, start, bytes) in entries {
        store
            .insert(UNBOUNDED, key, start..start + bytes.len(), Bytes::from_static(bytes))
            .expect("valid insert");
    }
    store
}

fn text(hit: Result<Option<Bytes>, RangeError>) -> Option<String> {
    hit.expect("valid range")
        .map(|bytes| String::from_utf8(bytes.to_vec()).expect("test bytes are text"))
}

#[test]
fn zero_is_not_a_capacity() {
    assert_eq!(NonZeroUsize::new(0), None);
    assert_eq!(number(5).get(), 5);
}

#[test]
fn new_store_is_empty() {
    let store: RangeStore<u8> = RangeStore::new();
    let snapshot = store.snapshot(UNBOUNDED);
    assert_eq!(snapshot.resident_bytes, 0);
    assert_eq!(snapshot.ranges, 0);
    assert_eq!(snapshot.hits + snapshot.partial_hits + snapshot.misses, 0);
}

#[test]
fn hit_means_no_gaps() {
    let mut store = store(&[(1, 4, b"efgh")]);
    assert_eq!(store.missing_ranges(&1, 5..7), Ok(vec![]));
    assert_eq!(text(store.get(&1, 5..7)), Some(String::from("fg")));
    assert_eq!(store.missing_ranges(&1, 5..9), Ok(vec![8..9]));
    assert_eq!(text(store.get(&1, 5..9)), None);
    assert_eq!(store.missing_ranges(&1, 0..12), Ok(vec![0..4, 8..12]));
}

#[test]
fn adjacent_bytes_are_one_block() {
    let mut store = store(&[(1, 0, b"ab"), (1, 4, b"ef"), (1, 2, b"cd")]);
    assert_eq!(text(store.get(&1, 0..6)), Some(String::from("abcdef")));
    assert_eq!(store.snapshot(UNBOUNDED).ranges, 1);
}

#[test]
fn empty_reads_and_inserts_change_nothing() {
    let mut store = store(&[(1, 0, b"ab"), (2, 0, b"cd")]);
    let before = store.snapshot(UNBOUNDED);
    assert_eq!(
        store.insert(UNBOUNDED, 1, 9..9, Bytes::new()),
        Ok(InsertOutcome::AlreadyCovered)
    );
    assert_eq!(store.snapshot(UNBOUNDED), before);
    assert_eq!(text(store.get(&1, 1..1)), Some(String::new()));
    // The block of the first key is still the least recently used.
    store.enforce(bounded(2));
    assert_eq!(text(store.get(&1, 0..2)), None);
    assert_eq!(text(store.get(&2, 0..2)), Some(String::from("cd")));
}

#[test]
fn reads_are_repeatable() {
    let mut store = store(&[(1, 0, b"abcd"), (2, 2, b"wxyz")]);
    assert_eq!(text(store.get(&1, 1..3)), Some(String::from("bc")));
    assert_eq!(text(store.get(&2, 3..5)), Some(String::from("xy")));
    assert_eq!(text(store.get(&1, 1..3)), Some(String::from("bc")));
}

#[test]
fn reads_are_counted_once_each() {
    let mut store = store(&[(1, 4, b"data")]);
    store.get(&1, 4..8).expect("valid range");
    store.get(&1, 8..8).expect("valid range");
    store.get(&1, 2..6).expect("valid range");
    store.get(&1, 8..9).expect("valid range");
    store.get(&3, 4..8).expect("valid range");
    store.get(&1, std::ops::Range { start: 2, end: 1 }).expect_err("reversed");
    let snapshot = store.snapshot(UNBOUNDED);
    assert_eq!(
        (snapshot.hits, snapshot.partial_hits, snapshot.misses),
        (2, 1, 2)
    );
}

#[test]
fn hit_saves_a_block_from_eviction() {
    let mut store = store(&[(1, 0, b"aa"), (2, 0, b"bb"), (3, 0, b"cc")]);
    store.get(&1, 0..1).expect("valid range");
    store.enforce(bounded(4));
    assert_eq!(text(store.get(&2, 0..2)), None);
    assert_eq!(text(store.get(&3, 0..2)), Some(String::from("cc")));
    assert_eq!(text(store.get(&1, 0..2)), Some(String::from("aa")));
}

#[test]
fn partial_hits_refresh_blocks_in_order_of_start() {
    let mut store = store(&[(1, 8, b"ii"), (1, 0, b"aa"), (2, 0, b"zz")]);
    store.get(&1, 0..10).expect("valid range");
    // From the least recently used: the other key, offset 0, offset 8.
    store.enforce(bounded(4));
    assert_eq!(store.missing_ranges(&2, 0..2), Ok(vec![0..2]));
    store.enforce(bounded(2));
    assert_eq!(store.missing_ranges(&1, 0..10), Ok(vec![0..8]));
}

#[test]
fn covered_insert_is_ignored_and_not_a_use() {
    let mut store = store(&[(1, 0, b"abcd"), (2, 0, b"wxyz")]);
    assert_eq!(
        store.insert(UNBOUNDED, 1, 1..3, Bytes::from_static(b"XY")),
        Ok(InsertOutcome::AlreadyCovered)
    );
    store.enforce(bounded(4));
    assert_eq!(store.missing_ranges(&1, 0..4), Ok(vec![0..4]));
}

#[test]
fn oversized_insert_keeps_blocks() {
    let mut store = store(&[(1, 0, b"abcd")]);
    assert_eq!(
        store.insert(bounded(8), 1, 2..9, Bytes::from_static(b"CDEFGHI")),
        Ok(InsertOutcome::TooLarge)
    );
    assert_eq!(text(store.get(&1, 0..4)), Some(String::from("abcd")));
    assert_eq!(store.snapshot(bounded(8)).admissions_rejected_too_large, 1);
}

#[test]
fn insert_replaces_its_own_range_only() {
    let mut store = store(&[(1, 0, b"abcdef"), (2, 0, b"uvwxyz")]);
    assert_eq!(
        store.insert(UNBOUNDED, 1, 4..8, Bytes::from_static(b"EFGH")),
        Ok(InsertOutcome::Inserted)
    );
    assert_eq!(text(store.get(&1, 0..8)), Some(String::from("abcdEFGH")));
    assert_eq!(text(store.get(&2, 0..6)), Some(String::from("uvwxyz")));
}

#[test]
fn inserted_bytes_can_be_read_whatever_made_way() {
    let mut store = store(&[(1, 0, b"aaaa"), (2, 0, b"bbbb")]);
    assert_eq!(
        store.insert(bounded(8), 3, 0..8, Bytes::from_static(b"cccccccc")),
        Ok(InsertOutcome::Inserted)
    );
    assert_eq!(text(store.get(&3, 0..8)), Some(String::from("cccccccc")));
    let snapshot = store.snapshot(bounded(8));
    assert_eq!(snapshot.evictions, 2);
    assert_eq!(snapshot.resident_bytes, 8);
    assert_eq!(snapshot.keys, 1);
}

#[test]
fn eviction_takes_no_more_than_it_must() {
    let mut store = store(&[(1, 0, b"a"), (1, 2, b"b"), (1, 4, b"c"), (1, 6, b"d")]);
    store.enforce(bounded(3));
    assert_eq!(store.missing_ranges(&1, 0..7), Ok(vec![0..2, 3..4, 5..6]));
    store.enforce(bounded(3));
    assert_eq!(store.snapshot(bounded(3)).evictions, 1);
    store.enforce(UNBOUNDED);
    assert_eq!(store.snapshot(UNBOUNDED).evictions, 1);
}

#[test]
fn invalidation_is_key_scoped() {
    let mut store = store(&[(1, 0, b"abc"), (1, 9, b"de"), (2, 0, b"fgh")]);
    assert_eq!(store.invalidate(&1), Invalidation { ranges: 2, bytes: 5 });
    assert_eq!(store.invalidate(&1), Invalidation { ranges: 0, bytes: 0 });
    assert_eq!(text(store.get(&2, 0..3)), Some(String::from("fgh")));
    assert_eq!(store.snapshot(UNBOUNDED).insertions, 3);
}

#[test]
fn clearing_keeps_statistics() {
    let mut store = store(&[(1, 0, b"abc"), (2, 0, b"fgh")]);
    store.get(&1, 0..1).expect("valid range");
    assert_eq!(store.clear(), Invalidation { ranges: 2, bytes: 6 });
    assert_eq!(store.clear(), Invalidation::default());
    let snapshot = store.snapshot(UNBOUNDED);
    assert_eq!((snapshot.hits, snapshot.insertions), (1, 2));
    assert_eq!((snapshot.keys, snapshot.ranges, snapshot.resident_bytes), (0, 0, 0));
}

#[test]
fn snapshot_counts_keys_ranges_and_bytes() {
    let store = store(&[(1, 0, b"abc"), (1, 9, b"de"), (2, 0, b"fgh")]);
    let snapshot = store.snapshot(bounded(100));
    assert_eq!(snapshot.capacity, bounded(100));
    assert_eq!((snapshot.keys, snapshot.ranges, snapshot.resident_bytes), (2, 3, 8));
}

#[test]
fn offsets_reach_to_the_largest() {
    let top = usize::MAX;
    let mut store: RangeStore<u8> = RangeStore::new();
    store
        .insert(UNBOUNDED, 1, top - 4..top, Bytes::from_static(b"wxyz"))
        .expect("valid insert");
    store
        .insert(UNBOUNDED, 1, top - 6..top - 4, Bytes::from_static(b"uv"))
        .expect("valid insert");
    assert_eq!(text(store.get(&1, top - 6..top)), Some(String::from("uvwxyz")));
    assert_eq!(store.missing_ranges(&1, 0..top), Ok(vec![0..top - 6]));
}

#[test]
fn keys_of_several_types_are_told_apart() {
    fn distinct<K: CacheKey>(left: &K, same: &K, other: &K) {
        assert!(left.same_key(same));
        assert!(!left.same_key(other));
    }
    distinct(&true, &true, &false);
    distinct(&'a', &'a', &'b');
    distinct(&1u8, &1, &2);
    distinct(&1u16, &1, &2);
    distinct(&1usize, &1, &2);
    distinct(&-1i8, &-1, &1);
    distinct(&-1i16, &-1, &1);
    distinct(&-1i128, &-1, &1);
    distinct(&-1isize, &-1, &1);
    distinct(&1u32, &1, &2);
    distinct(&1u64, &1, &2);
    distinct(&1u128, &1, &2);
    distinct(&-1i32, &-1, &1);
    distinct(&-1i64, &-1, &1);
    distinct(&"a", &"a", &"b");
    distinct(&String::from("a"), &String::from("a"), &String::from("b"));
    distinct(&("a", 1u8), &("a", 1), &("a", 2));
    distinct(&("a", 1u8), &("a", 1), &("b", 1));
}

#[test]
fn plan_cuts_a_range_into_cached_parts_and_gaps() {
    let mut store = store(&[(1, 2, b"cd"), (1, 6, b"gh")]);
    let segments = store.plan(&1, 0..7).expect("valid range");
    let cut: Vec<(std::ops::Range<usize>, Option<Bytes>)> = segments
        .iter()
        .map(|segment| (segment.range.clone(), segment.data.clone()))
        .collect();
    assert_eq!(
        cut,
        vec![
            (0..2, None),
            (2..4, Some(Bytes::from_static(b"cd"))),
            (4..6, None),
            (6..7, Some(Bytes::from_static(b"g"))),
        ]
    );
    assert_eq!(gaps(&segments), vec![0..2, 4..6]);
    assert_eq!(store.missing_ranges(&1, 0..7), Ok(gaps(&segments)));
    assert_eq!(assemble(&segments), None);
    assert_eq!(store.snapshot(UNBOUNDED).partial_hits, 1);
}

#[test]
fn read_through_returns_the_bytes_of_the_source() {
    let source = b"abcdefghijklmnopqrstuvwxyz";
    let mut store: RangeStore<u8> = RangeStore::new();
    for (start, end) in [(3, 5), (9, 14), (20, 26)] {
        store
            .insert(bounded(12), 1, start..end, Bytes::copy_from_slice(&source[start..end]))
            .expect("valid insert");
    }
    for (start, end) in [(0, 26), (4, 10), (13, 21), (0, 26)] {
        let segments = store.plan(&1, start..end).expect("valid range");
        let mut fetched: Vec<Result<Bytes, ReadError<u8>>> = Vec::new();
        for segment in &segments {
            if segment.data.is_none() {
                let gap = segment.range.clone();
                let response = Ok(Bytes::copy_from_slice(&source[gap.clone()]));
                fetched.push(deliver(&mut store, bounded(12), 1, gap, response));
            }
        }
        let whole = conclude(segments, fetched).expect("source read");
        assert_eq!(&whole[..], &source[start..end]);
        assert!(store.snapshot(bounded(12)).resident_bytes <= 12);
    }
}

#[test]
fn refused_responses_leave_the_store_alone() {
    let mut store = store(&[(1, 0, b"ab")]);
    let before = store.snapshot(UNBOUNDED);
    let failed: Result<Bytes, u8> = Err(9);
    assert!(matches!(
        deliver(&mut store, UNBOUNDED, 1, 2..4, failed),
        Err(ReadError::Source(9))
    ));
    let short: Result<Bytes, u8> = Ok(Bytes::from_static(b"c"));
    assert!(matches!(
        deliver(&mut store, UNBOUNDED, 1, 2..4, short),
        Err(ReadError::ShortRead { expected: 2, actual: 1, .. })
    ));
    assert_eq!(store.snapshot(UNBOUNDED), before);
}

#[test]
fn departed_requests_give_their_place_away() {
    let mut table: FetchTable<u8> = FetchTable::new();
    let first = table.join(1, 0..4);
    let second = table.join(2, 0..4);
    assert!(matches!(table.poll(number(1), first), Turn::Fetch));
    assert!(matches!(table.poll(number(1), first), Turn::Wait));
    assert!(matches!(table.poll(number(1), second), Turn::Wait));
    assert!(table.finish(first, Some(Bytes::from_static(b"abcd"))));
    assert!(matches!(table.poll(number(1), first), Turn::Unknown));
    assert!(matches!(table.poll(number(1), second), Turn::Fetch));
    assert!(matches!(table.poll(number(1), 99), Turn::Unknown));
    assert!(!table.finish(99, None));
}

#[test]
fn limit_decides_how_many_requests_read() {
    let mut table: FetchTable<u8> = FetchTable::new();
    let ids: Vec<usize> = (0..4).map(|key| table.join(key, 0..4)).collect();
    let reading = |table: &mut FetchTable<u8>, limit: usize| {
        ids.iter()
            .filter(|id| matches!(table.poll(number(limit), **id), Turn::Fetch))
            .count()
    };
    assert_eq!(reading(&mut table, 1), 1);
    assert_eq!(reading(&mut table, 1), 0);
    assert_eq!(reading(&mut table, 3), 2);
    assert_eq!(reading(&mut table, usize::MAX), 1);
}

#[test]
fn answered_requests_get_as_many_bytes_as_they_asked_for() {
    let mut table: FetchTable<u8> = FetchTable::new();
    let leader = table.join(1, 2..6);
    let follower = table.join(1, 2..6);
    assert!(matches!(table.poll(number(1), leader), Turn::Fetch));
    table.finish(leader, Some(Bytes::from_static(b"cdef")));
    assert!(matches!(
        table.poll(number(1), follower),
        Turn::Answered(bytes) if bytes.len() == 4
    ));
}

#[test]
fn limit_determines_the_configuration() {
    for (left, right) in [(1, 1), (1, 2), (usize::MAX, usize::MAX), (usize::MAX, 1)] {
        let configured = ReaderConfig::new(number(left));
        assert_eq!(configured.max_fetch_concurrency().get(), left);
        assert_eq!(configured == ReaderConfig::new(number(right)), left == right);
        assert_eq!(number(left) == number(right), left == right);
    }
}

#[test]
fn numbers_of_departed_requests_are_used_again() {
    let mut table: FetchTable<u8> = FetchTable::new();
    let first = table.join(1, 0..4);
    let second = table.join(2, 0..4);
    assert!(first != second);
    table.finish(first, None);
    assert_eq!(table.join(3, 0..4), first);
}

#[test]
fn clones_share_content_under_one_ceiling() {
    let cache: RangeCache<u64> = RangeCache::new(bounded(64));
    let clones: Vec<RangeCache<u64>> = (0..4).map(|_| cache.clone()).collect();
    for round in 0..100u64 {
        let key = round % 6;
        clones[(round % 4) as usize]
            .insert(key, 0..16, Bytes::from(vec![key as u8; 16]))
            .expect("valid insert");
        assert_eq!(
            clones[((round + 1) % 4) as usize].get(&key, 4..12),
            Ok(Some(Bytes::from(vec![key as u8; 8])))
        );
        assert!(cache.snapshot().resident_bytes <= 64);
    }
}
