use bytes::Bytes;
use range_cache::differential::replay;
use range_cache::model::{Model, DOMAIN, KEY_COUNT};
use range_cache::{
    CacheCapacity, InsertOutcome, Invalidation, NonZeroUsize, RangeCache, RangeError,
};

/// A small generator of pseudo-random bytes.
struct Generator(u64);

impl Generator {
    fn next(&mut self) -> u8 {
        self.0 = self.0.wrapping_mul(6364136223846793005).wrapping_add(1442695040888963407);
        (self.0 >> 33) as u8
    }

    fn below(&mut self, bound: usize) -> usize {
        usize::from(self.next()) % bound
    }

    fn take(&mut self, len: usize) -> Vec<u8> {
        (0..len).map(|_| self.next()).collect()
    }
}

fn bounded(bytes: usize) -> CacheCapacity {
    CacheCapacity::Bounded(NonZeroUsize::new(bytes).expect("test capacity is non-zero"))
}

#[test]
fn model_counts_offsets_from_its_base() {
    let model = Model::new(100, CacheCapacity::Unbounded);
    assert_eq!(model.absolute(7), 107);
    assert_eq!(
        model.range_error(5, 4),
        RangeError::ReversedRange { start: 105, end: 104 }
    );
    assert_eq!(
        model.missing(0, 2, 10).expect("valid range"),
        vec![102..110]
    );
}

#[test]
fn model_merges_reads_and_reports() {
    let mut model = Model::new(0, bounded(8));
    assert_eq!(model.insert(1, 0, 4, b"abcd"), Ok(InsertOutcome::Inserted));
    assert_eq!(model.insert(1, 4, 6, b"ef"), Ok(InsertOutcome::Inserted));
    assert_eq!(model.insert(1, 1, 3, b"XY"), Ok(InsertOutcome::AlreadyCovered));
    assert_eq!(model.insert(1, 6, 10, b"ghij"), Ok(InsertOutcome::TooLarge));
    assert_eq!(model.insert(1, 4, 4, b""), Ok(InsertOutcome::AlreadyCovered));
    assert_eq!(model.get(1, 0, 6), Ok(Some(b"abcdef".to_vec())));
    assert_eq!(model.get(1, 0, 8), Ok(None));
    assert_eq!(model.get(2, 0, 8), Ok(None));
    assert_eq!(model.get(2, 3, 3), Ok(Some(Vec::new())));
    assert_eq!(model.missing(1, 0, 8), Ok(vec![6..8]));
    assert_eq!(model.resident_bytes(), 6);
    let snapshot = model.snapshot();
    assert_eq!(snapshot.keys, 1);
    assert_eq!(snapshot.ranges, 1);
    assert_eq!(snapshot.hits, 2);
    assert_eq!(snapshot.partial_hits, 1);
    assert_eq!(snapshot.misses, 1);
    assert_eq!(snapshot.insertions, 2);
    assert_eq!(snapshot.admissions_rejected_too_large, 1);
    assert_eq!(model.invalidate(1), Invalidation { ranges: 1, bytes: 6 });
    assert_eq!(model.clear(), Invalidation { ranges: 0, bytes: 0 });
}

#[test]
fn model_evicts_the_least_recently_used_range() {
    let mut model = Model::new(0, bounded(8));
    model.insert(0, 0, 4, b"aaaa").expect("valid insert");
    model.insert(1, 0, 4, b"bbbb").expect("valid insert");
    model.touch(0, 0);
    model.insert(2, 0, 4, b"cccc").expect("valid insert");
    assert_eq!(model.get(1, 0, 4), Ok(None));
    assert_eq!(model.get(0, 0, 4), Ok(Some(b"aaaa".to_vec())));
    assert_eq!(model.snapshot().evictions, 1);
}

#[test]
fn model_rejects_reversed_ranges_and_wrong_lengths() {
    let mut model = Model::new(10, CacheCapacity::Unbounded);
    assert_eq!(
        model.insert(0, 5, 4, b""),
        Err(RangeError::ReversedRange { start: 15, end: 14 })
    );
    assert_eq!(
        model.insert(0, 2, 5, b"no"),
        Err(RangeError::PayloadLengthMismatch { range: 12..15, expected: 3, actual: 2 })
    );
    assert_eq!(
        model.get(0, 5, 4),
        Err(RangeError::ReversedRange { start: 15, end: 14 })
    );
    assert_eq!(
        model.missing(0, 5, 4),
        Err(RangeError::ReversedRange { start: 15, end: 14 })
    );
}

#[test]
fn replay_needs_a_configuration() {
    assert_eq!(replay(&[]), None);
    let outcome = replay(&[0]).expect("a configuration is there");
    assert!(outcome.agreed);
    assert_eq!(outcome.snapshot.capacity, CacheCapacity::Unbounded);
    assert_eq!(outcome.snapshot.resident_bytes, 0);
}

#[test]
fn replay_decodes_configuration_and_operations() {
    // Capacity of three bytes at the end of the offset domain; an insertion of
    // two bytes, an insertion of one byte too few, a hit, and a miss.
    let data = [
        0x85, 0, 1, 4, 6, 0, 9, 0, 1, 4, 6, 1, 9, 1, 1, 4, 6, 0, 0, 1, 2, 0, 1, 0, 0,
    ];
    let outcome = replay(&data).expect("a configuration is there");
    assert!(outcome.agreed);
    assert_eq!(outcome.snapshot.capacity, bounded(3));
    assert_eq!(outcome.snapshot.resident_bytes, 2);
    assert_eq!(outcome.snapshot.insertions, 1);
    assert_eq!(outcome.snapshot.hits, 1);
    assert_eq!(outcome.snapshot.misses, 1);
}

#[test]
fn replay_agrees_on_pseudo_random_operations() {
    let mut generator = Generator(1);
    for _ in 0..200 {
        let len = 1 + generator.below(256) * 6;
        let data = generator.take(len);
        assert!(replay(&data).expect("a configuration is there").agreed);
    }
}

#[test]
fn shared_cache_agrees_with_the_model() {
    let mut generator = Generator(2);
    for round in 0..60 {
        let capacity = if round % 2 == 0 {
            CacheCapacity::Unbounded
        } else {
            bounded(generator.below(DOMAIN) + 1)
        };
        let base = if round % 3 == 0 { usize::MAX - DOMAIN } else { 0 };
        let cache: RangeCache<usize> = RangeCache::new(capacity);
        let mut model = Model::new(base, capacity);
        for _ in 0..256 {
            let key = generator.below(KEY_COUNT);
            let start = generator.below(DOMAIN + 1);
            let end = generator.below(DOMAIN + 1);
            let range = model.absolute(start)..model.absolute(end);
            match generator.below(5) {
                0 => {
                    let len = match generator.below(3) {
                        0 => end.saturating_sub(start) + 1,
                        _ => end.saturating_sub(start),
                    };
                    let payload = generator.take(len);
                    assert_eq!(
                        cache.insert(key, range, Bytes::from(payload.clone())),
                        model.insert(key, start, end, &payload)
                    );
                }
                1 => {
                    let expected = model.get(key, start, end).map(|hit| hit.map(Bytes::from));
                    assert_eq!(cache.get(&key, range), expected);
                }
                2 => assert_eq!(cache.missing_ranges(&key, range), model.missing(key, start, end)),
                3 => assert_eq!(cache.invalidate(&key), model.invalidate(key)),
                _ => {
                    if generator.below(4) == 0 {
                        assert_eq!(cache.clear(), model.clear());
                    }
                }
            }
            assert_eq!(cache.snapshot(), model.snapshot());
            for checked in 0..KEY_COUNT {
                assert_eq!(
                    cache.missing_ranges(&checked, model.absolute(0)..model.absolute(DOMAIN)),
                    model.missing(checked, 0, DOMAIN)
                );
            }
        }
    }
}

#[test]
fn model_takes_any_base() {
    let mut model = Model::new(usize::MAX, bounded(8));
    assert_eq!(model.snapshot().resident_bytes, 0);
    assert_eq!(model.insert(0, 4, 4, b""), Ok(InsertOutcome::AlreadyCovered));
    assert_eq!(model.get(0, 9, 9), Ok(Some(Vec::new())));
    assert_eq!(model.missing(0, 7, 7), Ok(vec![]));

    let mut top = Model::new(usize::MAX - 4, bounded(8));
    assert_eq!(top.insert(0, 0, 4, b"wxyz"), Ok(InsertOutcome::Inserted));
    assert_eq!(top.get(0, 1, 4), Ok(Some(b"xyz".to_vec())));
    assert_eq!(top.missing(0, 0, 4), Ok(vec![]));
    assert_eq!(top.missing(1, 1, 3), Ok(vec![usize::MAX - 3..usize::MAX - 1]));
}

#[test]
fn model_refuses_oversized_ranges_beyond_its_domain() {
    let mut model = Model::new(0, bounded(8));
    model.insert(0, 0, 4, b"abcd").expect("valid insert");
    assert_eq!(model.insert(0, 2, 40, &[0; 38]), Ok(InsertOutcome::TooLarge));
    assert_eq!(model.get(0, 0, 4), Ok(Some(b"abcd".to_vec())));
    assert_eq!(model.snapshot().admissions_rejected_too_large, 1);
}
