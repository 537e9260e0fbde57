use std::sync::Arc;

use bytes::Bytes;
use range_cache::fetch::Turn;
use range_cache::plan::assemble;
use range_cache::reader::{accept, conclude};
use range_cache::{
    CacheCapacity, CachedReader, NonZeroUsize, RangeCache, RangeError, ReadError, ReaderConfig,
    Segment,
};

#[derive(Clone, Copy, Debug, PartialEq)]
struct TestError;

/// A source of fixed bytes that can be told to fail.
struct TestSource {
    data: Bytes,
}

impl TestSource {
    fn new(data: &'static [u8]) -> Self {
        Self {
            data: Bytes::from_static(data),
        }
    }

    fn read_range(&self, range: std::ops::Range<usize>) -> Result<Bytes, TestError> {
        Ok(self.data.slice(range))
    }
}

fn reader(
    data: &'static [u8],
    capacity: CacheCapacity,
    concurrency: usize,
) -> CachedReader<String, TestSource> {
    CachedReader::new(
        Arc::new(TestSource::new(data)),
        RangeCache::new(capacity),
        ReaderConfig::new(NonZeroUsize::new(concurrency).expect("test concurrency is non-zero")),
    )
}

fn key() -> String {
    String::from("key")
}

fn bounded(bytes: usize) -> CacheCapacity {
    CacheCapacity::Bounded(NonZeroUsize::new(bytes).expect("test capacity is non-zero"))
}

/// Reads `range` with one source read per gap, one after the other, and returns
/// the gaps that were read from the source.
fn read(
    reader: &CachedReader<String, TestSource>,
    key: &str,
    range: std::ops::Range<usize>,
    fail: Option<std::ops::Range<usize>>,
) -> (Result<Bytes, ReadError<TestError>>, Vec<std::ops::Range<usize>>) {
    let key = String::from(key);
    let mut calls = Vec::new();
    let segments = match reader.plan(&key, range) {
        Ok(segments) => segments,
        Err(error) => return (Err(error), calls),
    };
    let mut fetched = Vec::new();
    for segment in &segments {
        if segment.data.is_some() {
            continue;
        }
        let gap = segment.range.clone();
        let id = reader.join(key.clone(), gap.clone());
        assert!(matches!(reader.poll(id), Turn::Fetch));
        calls.push(gap.clone());
        let response = if fail == Some(gap.clone()) {
            Err(TestError)
        } else {
            reader.source().read_range(gap.clone())
        };
        fetched.push(reader.settle(id, key.clone(), gap, response));
    }
    (conclude(segments, fetched), calls)
}

#[test]
fn reader_accessors_return_constructor_values() {
    let source = Arc::new(TestSource::new(b"abcdefgh"));
    let capacity = CacheCapacity::Bounded(NonZeroUsize::new(8).expect("test capacity is non-zero"));
    let config = ReaderConfig::new(NonZeroUsize::new(3).expect("test concurrency is non-zero"));
    let reader = CachedReader::new(
        Arc::clone(&source),
        RangeCache::<String>::new(capacity),
        config,
    );

    assert!(Arc::ptr_eq(reader.source(), &source));
    assert_eq!(reader.cache().capacity(), capacity);
    assert_eq!(reader.config(), config);
    assert_eq!(config.max_fetch_concurrency().get(), 3);
}

#[test]
fn full_hits_need_no_source_and_partial_hits_need_the_gaps() {
    let reader = reader(b"abcdefghijklmnop", CacheCapacity::Unbounded, 4);
    reader
        .cache()
        .insert(key(), 0..4, Bytes::from_static(b"abcd"))
        .expect("valid insert");

    let (bytes, calls) = read(&reader, "key", 0..4, None);
    assert_eq!(bytes.expect("cached read"), Bytes::from_static(b"abcd"));
    assert!(calls.is_empty());
    let (bytes, calls) = read(&reader, "key", 0..8, None);
    assert_eq!(bytes.expect("partial read"), Bytes::from_static(b"abcdefgh"));
    assert_eq!(calls, vec![4..8]);
    let (bytes, calls) = read(&reader, "key", 2..6, None);
    assert_eq!(bytes.expect("merged hit"), Bytes::from_static(b"cdef"));
    assert!(calls.is_empty());
}

#[test]
fn gaps_before_and_between_cached_bytes_are_filled_in_order() {
    let reader = reader(b"abcdefghijklmnop", CacheCapacity::Unbounded, 2);
    for (name, range, bytes) in [
        ("prefix", 4..8, Bytes::from_static(b"efgh")),
        ("middle", 0..2, Bytes::from_static(b"ab")),
        ("middle", 6..8, Bytes::from_static(b"gh")),
    ] {
        reader
            .cache()
            .insert(String::from(name), range, bytes)
            .expect("valid insert");
    }

    let (bytes, calls) = read(&reader, "prefix", 0..8, None);
    assert_eq!(bytes.expect("prefix gap read"), Bytes::from_static(b"abcdefgh"));
    assert_eq!(calls, vec![0..4]);
    let (bytes, calls) = read(&reader, "middle", 0..8, None);
    assert_eq!(bytes.expect("middle gap read"), Bytes::from_static(b"abcdefgh"));
    assert_eq!(calls, vec![2..6]);
}

#[test]
fn gaps_that_arrive_out_of_order_are_joined_in_order() {
    let reader = reader(b"abcdefghijkl", CacheCapacity::Unbounded, 2);
    for (range, bytes) in [
        (0..2, Bytes::from_static(b"ab")),
        (4..6, Bytes::from_static(b"ef")),
        (8..12, Bytes::from_static(b"ijkl")),
    ] {
        reader.cache().insert(key(), range, bytes).expect("valid insert");
    }
    let segments = reader.cache().plan(&key(), 0..12).expect("valid range");
    let first = reader.join(key(), 2..4);
    let second = reader.join(key(), 6..8);
    assert!(matches!(reader.poll(first), Turn::Fetch));
    assert!(matches!(reader.poll(second), Turn::Fetch));
    let late = reader.settle(second, key(), 6..8, reader.source().read_range(6..8));
    let early = reader.settle(first, key(), 2..4, reader.source().read_range(2..4));
    let bytes = conclude(segments, vec![early, late]).expect("multi-gap read succeeds");
    assert_eq!(bytes, Bytes::from_static(b"abcdefghijkl"));
}

#[test]
fn gaps_that_arrived_stay_cached_when_another_gap_fails() {
    let reader = reader(b"abcdefghij", CacheCapacity::Unbounded, 2);
    for (range, bytes) in [
        (0..2, Bytes::from_static(b"ab")),
        (4..6, Bytes::from_static(b"ef")),
        (8..10, Bytes::from_static(b"ij")),
    ] {
        reader.cache().insert(key(), range, bytes).expect("valid insert");
    }

    let (bytes, calls) = read(&reader, "key", 0..10, Some(6..8));
    assert!(matches!(bytes, Err(ReadError::Source(TestError))));
    assert_eq!(calls, vec![2..4, 6..8]);
    assert_eq!(
        reader.cache().missing_ranges(&key(), 0..10).expect("valid range"),
        vec![6..8]
    );
    let (bytes, calls) = read(&reader, "key", 0..10, None);
    assert_eq!(bytes.expect("retry succeeds"), Bytes::from_static(b"abcdefghij"));
    assert_eq!(calls, vec![6..8]);
}

#[test]
fn first_failed_gap_decides_the_error() {
    let segments = vec![
        Segment { range: 0..2, data: None },
        Segment { range: 2..4, data: Some(Bytes::from_static(b"cd")) },
        Segment { range: 4..6, data: None },
    ];
    let fetched: Vec<Result<Bytes, ReadError<u8>>> =
        vec![Err(ReadError::Source(7)), Err(ReadError::Source(8))];
    assert!(matches!(conclude(segments, fetched), Err(ReadError::Source(7))));
}

#[test]
fn source_reads_obey_the_global_limit() {
    let reader = reader(b"abcdefghijklmnopqrstuvwxyz012345", CacheCapacity::Unbounded, 2);
    let ids: Vec<usize> = [("first", 0..8), ("second", 8..16), ("third", 16..24), ("fourth", 24..32)]
        .into_iter()
        .map(|(name, range)| reader.join(String::from(name), range))
        .collect();
    assert!(matches!(reader.poll(ids[0]), Turn::Fetch));
    assert!(matches!(reader.poll(ids[1]), Turn::Fetch));
    assert!(matches!(reader.poll(ids[2]), Turn::Wait));
    assert!(matches!(reader.poll(ids[3]), Turn::Wait));
    let response = reader.source().read_range(0..8);
    reader
        .settle(ids[0], String::from("first"), 0..8, response)
        .expect("source read");
    assert!(matches!(reader.poll(ids[3]), Turn::Fetch));
    assert!(matches!(reader.poll(ids[2]), Turn::Wait));
}

#[test]
fn identical_requests_share_one_source_read() {
    let reader = reader(b"abcdefghijklmnop", CacheCapacity::Unbounded, 8);
    let leader = reader.join(key(), 0..8);
    assert!(matches!(reader.poll(leader), Turn::Fetch));
    let others: Vec<usize> = (0..7).map(|_| reader.join(key(), 0..8)).collect();
    for id in &others {
        assert!(matches!(reader.poll(*id), Turn::Wait));
    }
    let response = reader.source().read_range(0..8);
    assert_eq!(
        reader.settle(leader, key(), 0..8, response).expect("coalesced read"),
        Bytes::from_static(b"abcdefgh")
    );
    for id in others {
        match reader.poll(id) {
            Turn::Answered(bytes) => assert_eq!(bytes, Bytes::from_static(b"abcdefgh")),
            other => panic!("unexpected turn {other:?}"),
        }
        assert!(matches!(reader.poll(id), Turn::Unknown));
    }
}

#[test]
fn overlapping_requests_and_other_keys_are_independent() {
    let reader = reader(b"abcdefghijklmnop", CacheCapacity::Unbounded, 3);
    let first = reader.join(key(), 0..8);
    let second = reader.join(key(), 4..12);
    let third = reader.join(String::from("other"), 0..8);
    for id in [first, second, third] {
        assert!(matches!(reader.poll(id), Turn::Fetch));
    }
}

#[test]
fn failures_and_wrong_lengths_are_not_cached() {
    let reader = reader(b"abcdefgh", CacheCapacity::Unbounded, 1);
    let responses: Vec<Result<Bytes, TestError>> = vec![
        Err(TestError),
        Ok(Bytes::from_static(b"abcdefg")),
        Ok(Bytes::from_static(b"abcdefghi")),
    ];
    let mut errors = Vec::new();
    for response in responses {
        let id = reader.join(key(), 0..8);
        assert!(matches!(reader.poll(id), Turn::Fetch));
        errors.push(
            reader
                .settle(id, key(), 0..8, response)
                .expect_err("response is refused"),
        );
        assert_eq!(reader.cache().snapshot().resident_bytes, 0);
    }
    assert!(matches!(errors[0], ReadError::Source(TestError)));
    assert!(matches!(
        &errors[1],
        ReadError::ShortRead { range, expected: 8, actual: 7 } if *range == (0..8)
    ));
    assert!(matches!(
        &errors[2],
        ReadError::ShortRead { range, expected: 8, actual: 9 } if *range == (0..8)
    ));
    let (bytes, calls) = read(&reader, "key", 0..8, None);
    assert_eq!(bytes.expect("retry succeeds"), Bytes::from_static(b"abcdefgh"));
    assert_eq!(calls, vec![0..8]);
}

#[test]
fn reversed_ranges_are_refused_whatever_the_response() {
    let reversed = std::ops::Range { start: 5, end: 4 };
    assert!(matches!(
        accept::<TestError>(&reversed, Ok(Bytes::new())),
        Err(ReadError::Range(RangeError::ReversedRange { start: 5, end: 4 }))
    ));
}

#[test]
fn failed_leader_lets_one_waiter_take_over() {
    let reader = reader(b"abcdefgh", CacheCapacity::Unbounded, 1);
    let leader = reader.join(key(), 0..8);
    assert!(matches!(reader.poll(leader), Turn::Fetch));
    let second = reader.join(key(), 0..8);
    let third = reader.join(key(), 0..8);
    assert!(matches!(
        reader.settle(leader, key(), 0..8, Err(TestError)),
        Err(ReadError::Source(TestError))
    ));
    assert!(matches!(reader.poll(third), Turn::Wait));
    assert!(matches!(reader.poll(second), Turn::Fetch));
    let response = reader.source().read_range(0..8);
    assert_eq!(
        reader.settle(second, key(), 0..8, response).expect("retry"),
        Bytes::from_static(b"abcdefgh")
    );
    assert!(matches!(reader.poll(third), Turn::Answered(bytes) if bytes == Bytes::from_static(b"abcdefgh")));
}

#[test]
fn abandoned_leader_lets_a_waiter_take_over() {
    let reader = reader(b"abcdefgh", CacheCapacity::Unbounded, 1);
    let leader = reader.join(key(), 0..8);
    assert!(matches!(reader.poll(leader), Turn::Fetch));
    let waiter = reader.join(key(), 0..8);
    assert!(matches!(reader.poll(waiter), Turn::Wait));
    assert!(reader.abandon(leader));
    assert!(!reader.abandon(leader));
    assert!(matches!(reader.poll(waiter), Turn::Fetch));
}

#[test]
fn abandoned_waiter_does_not_disturb_the_leader() {
    let reader = reader(b"abcdefgh", CacheCapacity::Unbounded, 1);
    let leader = reader.join(key(), 0..8);
    assert!(matches!(reader.poll(leader), Turn::Fetch));
    let waiter = reader.join(key(), 0..8);
    assert!(reader.abandon(waiter));
    let response = reader.source().read_range(0..8);
    assert_eq!(
        reader.settle(leader, key(), 0..8, response).expect("leader read"),
        Bytes::from_static(b"abcdefgh")
    );
}

#[test]
fn abandoned_queued_request_takes_no_place() {
    let reader = reader(b"abcdefgh", CacheCapacity::Unbounded, 1);
    let first = reader.join(String::from("first"), 0..4);
    assert!(matches!(reader.poll(first), Turn::Fetch));
    let queued = reader.join(String::from("second"), 4..8);
    assert!(matches!(reader.poll(queued), Turn::Wait));
    assert!(reader.abandon(queued));
    let response = reader.source().read_range(0..4);
    reader
        .settle(first, String::from("first"), 0..4, response)
        .expect("first read");
    let retry = reader.join(String::from("second"), 4..8);
    assert!(matches!(reader.poll(retry), Turn::Fetch));
}

#[test]
fn bytes_are_returned_and_shared_when_they_are_too_large_to_keep() {
    let reader = reader(b"abcdefgh", bounded(4), 2);
    let leader = reader.join(key(), 0..8);
    assert!(matches!(reader.poll(leader), Turn::Fetch));
    let waiter = reader.join(key(), 0..8);
    let response = reader.source().read_range(0..8);
    assert_eq!(
        reader.settle(leader, key(), 0..8, response).expect("source read"),
        Bytes::from_static(b"abcdefgh")
    );
    assert!(matches!(reader.poll(waiter), Turn::Answered(bytes) if bytes == Bytes::from_static(b"abcdefgh")));
    let snapshot = reader.cache().snapshot();
    assert_eq!(snapshot.resident_bytes, 0);
    assert_eq!(snapshot.admissions_rejected_too_large, 1);
}

#[test]
fn empty_and_reversed_reads_need_no_source() {
    let reader = reader(b"abcdefgh", CacheCapacity::Unbounded, 1);
    let (bytes, calls) = read(&reader, "key", 4..4, None);
    assert_eq!(bytes.expect("empty read"), Bytes::new());
    assert!(calls.is_empty());
    let reversed = std::ops::Range { start: 5, end: 4 };
    let (bytes, calls) = read(&reader, "key", reversed, None);
    assert!(matches!(
        bytes,
        Err(ReadError::Range(RangeError::ReversedRange { start: 5, end: 4 }))
    ));
    assert!(calls.is_empty());
}

#[test]
fn reads_through_the_reader_are_counted_once() {
    let reader = reader(b"abcdefgh", CacheCapacity::Unbounded, 1);
    read(&reader, "key", 0..4, None).0.expect("miss");
    read(&reader, "key", 0..4, None).0.expect("hit");
    read(&reader, "key", 2..6, None).0.expect("partial hit");
    let snapshot = reader.cache().snapshot();
    assert_eq!(
        (snapshot.misses, snapshot.hits, snapshot.partial_hits),
        (1, 1, 1)
    );
    assert_eq!(snapshot.insertions, 2);
}

#[test]
fn single_segment_is_not_copied() {
    let original = Bytes::from_static(b"abcdefgh");
    let segments = vec![Segment { range: 0..8, data: Some(original.clone()) }];
    let whole = assemble(&segments).expect("complete");
    assert_eq!(whole.as_ptr(), original.as_ptr());
    assert_eq!(assemble(&vec![Segment { range: 0..8, data: None }]), None);
}

#[test]
fn reader_clones_share_requests_and_cache() {
    let reader = reader(b"abcdefgh", CacheCapacity::Unbounded, 1);
    let clone = reader.clone();
    let leader = reader.join(key(), 0..8);
    assert!(matches!(clone.poll(leader), Turn::Fetch));
    let waiter = clone.join(key(), 0..8);
    assert!(matches!(reader.poll(waiter), Turn::Wait));
    let response = clone.source().read_range(0..8);
    clone.settle(leader, key(), 0..8, response).expect("source read");
    assert!(matches!(reader.poll(waiter), Turn::Answered(_)));
    assert_eq!(
        reader.cache().get(&key(), 0..8).expect("valid range"),
        Some(Bytes::from_static(b"abcdefgh"))
    );
}
