//! Laws of shared handles: how the answers of operations on the same lock relate
//! when one operation finds what the other left.
//!
//! Each law speaks of operations as the contracts of [`RangeCache`] and
//! [`CachedReader`] report them, by any handles and with any arguments.

use crate::cache::RangeCache;
use crate::capacity::{CacheSnapshot, InsertOutcome, Invalidation};
use crate::error::RangeError;
use crate::fetch::{follows, heir, leads_for, running, runs, Slots, Turn};
use crate::fetch_laws::{
    law_departures_free_their_own_place, law_failure_promotes_one, law_identical_requests_share,
};
use crate::key::CacheKey;
use crate::laws::{
    law_hit_means_no_gaps, law_insert_that_fits_evicts_nothing, law_inserted_bytes_can_be_read,
    law_parts_are_read_alike, law_read_returns_cached_bytes, law_reads_are_repeatable,
};
use crate::lemmas::lemma_invalidated_bytes;
use crate::lock::Passage;
use crate::payload::{optional_view, payload_view};
use crate::plan::{complete, open_ranges, tiles, Segment};
use crate::read_laws::{law_full_hits_skip_the_source, law_plan_fetches_the_gaps};
use crate::reader::{CachedReader, ReadError};
use crate::view::{advanced, byte_at, in_range, total, within, CacheView};
use bytes::Bytes;
use std::ops::Range;
use vstd::prelude::*;

verus! {

/// After an accepted insertion every part of its range can be read, and holds
/// the bytes of the payload.
pub proof fn law_get_returns_what_was_inserted<K: CacheKey>(
    writer: RangeCache<K>,
    key: K,
    range: Range<usize>,
    payload: Bytes,
    written: Passage<CacheView<K::V>>,
    reader: RangeCache<K>,
    same: &K,
    part: Range<usize>,
    read: Passage<CacheView<K::V>>,
    answer: Result<Option<Bytes>, RangeError>,
)
    requires
        writer.inserted(
            key,
            range,
            payload,
            written,
            Ok::<InsertOutcome, RangeError>(InsertOutcome::Inserted),
        ),
        reader.got(same, part, read, answer),
        read.before == written.after,
        same@ == key@,
        range.start <= part.start <= part.end <= range.end,
    ensures
        answer matches Ok(Some(bytes)) && payload_view(bytes) == payload_view(payload).subrange(
            part.start - range.start,
            part.end - range.start,
        ),
{
    let limit = writer.policy().limit();
    law_inserted_bytes_can_be_read(
        written.before,
        limit,
        key@,
        range.start as int,
        payload_view(payload),
    );
    law_parts_are_read_alike(
        written.after,
        key@,
        range.start as int,
        range.end as int,
        part.start as int,
        part.end as int,
    );
}

/// An insertion that fits next to all that is cached, as every insertion does
/// without a ceiling, keeps all that could be read before: the range can be
/// read again, and each byte that the insertion did not give anew is the same.
pub proof fn law_insert_that_fits_keeps_the_rest<K: CacheKey>(
    writer: RangeCache<K>,
    key: K,
    range: Range<usize>,
    payload: Bytes,
    written: Passage<CacheView<K::V>>,
    outcome: InsertOutcome,
    reader: RangeCache<K>,
    other: &K,
    part: Range<usize>,
    first: Passage<CacheView<K::V>>,
    before: Bytes,
    second: Passage<CacheView<K::V>>,
    answer: Result<Option<Bytes>, RangeError>,
    offset: int,
)
    requires
        reader.got(other, part, first, Ok::<Option<Bytes>, RangeError>(Some(before))),
        writer.inserted(key, range, payload, written, Ok::<InsertOutcome, RangeError>(outcome)),
        reader.got(other, part, second, answer),
        written.before == first.after,
        second.before == written.after,
        within(
            (total(written.before.blocks) + payload_view(payload).len()) as int,
            writer.policy().limit(),
        ),
        in_range(part, offset),
        !(other@ == key@ && in_range(range, offset)),
    ensures
        answer matches Ok(Some(bytes)) && payload_view(bytes).len() == payload_view(before).len()
            && payload_view(bytes)[offset - part.start] == payload_view(before)[offset - part.start],
{
    let start = part.start as int;
    let end = part.end as int;
    law_reads_are_repeatable(first.before, other@, start, end, other@, start, end);
    lemma_kept(
        written.before,
        writer.policy().limit(),
        key@,
        range.start as int,
        payload_view(payload),
        other@,
        start,
        end,
        offset,
    );
}

/// Content that an insertion leaves when it evicts nothing.
proof fn lemma_kept<Q>(
    before: CacheView<Q>,
    limit: Option<nat>,
    key: Q,
    at: int,
    payload: Seq<u8>,
    other: Q,
    start: int,
    end: int,
    offset: int,
)
    requires
        before.wf(),
        0 <= at,
        at + payload.len() <= usize::MAX,
        within((total(before.blocks) + payload.len()) as int, limit),
        before.read(other, start, end) is Some,
        start <= offset < end,
        !(other == key && at <= offset < at + payload.len()),
    ensures
        ({
            let after = before.after_insert(limit, key, at, payload);
            &&& after.read(other, start, end) is Some
            &&& after.read(other, start, end).unwrap()[offset - start] == before.read(
                other,
                start,
                end,
            ).unwrap()[offset - start]
        }),
{
    let after = before.after_insert(limit, key, at, payload);
    assert forall|o: int| start <= o < end implies (#[trigger] byte_at(after.blocks, other, o))
        is Some by {
        assert(byte_at(before.blocks, other, o) is Some);
        law_insert_that_fits_evicts_nothing(before, limit, key, at, payload, other, o);
    }
    law_insert_that_fits_evicts_nothing(before, limit, key, at, payload, other, offset);
    law_read_returns_cached_bytes(after, other, start, end, offset);
    law_read_returns_cached_bytes(before, other, start, end, offset);
}

/// Accepted bytes of a source that fit next to all that is cached can be read
/// afterwards, without a gap; they are the accepted ones unless the range was
/// cached already.
pub proof fn law_get_returns_what_was_delivered<K: CacheKey, E>(
    writer: RangeCache<K>,
    key: K,
    range: Range<usize>,
    response: Result<Bytes, E>,
    written: Passage<CacheView<K::V>>,
    accepted: Bytes,
    reader: RangeCache<K>,
    same: &K,
    part: Range<usize>,
    read: Passage<CacheView<K::V>>,
    answer: Result<Option<Bytes>, RangeError>,
)
    requires
        writer.delivered(key, range, response, written, Ok::<Bytes, ReadError<E>>(accepted)),
        reader.got(same, part, read, answer),
        read.before == written.after,
        same@ == key@,
        range.start <= part.start <= part.end <= range.end,
        within(
            (total(written.before.blocks) + payload_view(accepted).len()) as int,
            writer.policy().limit(),
        ),
    ensures
        answer matches Ok(Some(bytes)) && (written.before.read(
            key@,
            range.start as int,
            range.end as int,
        ) is None ==> payload_view(bytes) == payload_view(accepted).subrange(
            part.start - range.start,
            part.end - range.start,
        )),
{
    let limit = writer.policy().limit();
    let start = range.start as int;
    let end = range.end as int;
    let bytes = payload_view(accepted);
    law_insert_that_fits_evicts_nothing(written.before, limit, key@, start, bytes, key@, start);
    if written.before.read(key@, start, end) is None {
        law_inserted_bytes_can_be_read(written.before, limit, key@, start, bytes);
    }
    law_parts_are_read_alike(
        written.after,
        key@,
        start,
        end,
        part.start as int,
        part.end as int,
    );
}

/// Accepted bytes of a source that are admitted can be read afterwards,
/// whatever made way for them.
pub proof fn law_get_returns_what_was_admitted<K: CacheKey, E>(
    writer: RangeCache<K>,
    key: K,
    range: Range<usize>,
    response: Result<Bytes, E>,
    written: Passage<CacheView<K::V>>,
    accepted: Bytes,
    reader: RangeCache<K>,
    same: &K,
    part: Range<usize>,
    read: Passage<CacheView<K::V>>,
    answer: Result<Option<Bytes>, RangeError>,
)
    requires
        writer.delivered(key, range, response, written, Ok::<Bytes, ReadError<E>>(accepted)),
        reader.got(same, part, read, answer),
        read.before == written.after,
        same@ == key@,
        range.start <= part.start <= part.end <= range.end,
        written.before.insertion(
            writer.policy().limit(),
            key@,
            range.start as int,
            payload_view(accepted),
        ) is Inserted,
    ensures
        answer matches Ok(Some(bytes)) && payload_view(bytes) == payload_view(accepted).subrange(
            part.start - range.start,
            part.end - range.start,
        ),
{
    law_inserted_bytes_can_be_read(
        written.before,
        writer.policy().limit(),
        key@,
        range.start as int,
        payload_view(accepted),
    );
    law_parts_are_read_alike(
        written.after,
        key@,
        range.start as int,
        range.end as int,
        part.start as int,
        part.end as int,
    );
}

/// Accepted bytes of a source that fit next to all that is cached keep all that
/// could be read before.
pub proof fn law_delivery_that_fits_keeps_the_rest<K: CacheKey, E>(
    writer: RangeCache<K>,
    key: K,
    range: Range<usize>,
    response: Result<Bytes, E>,
    written: Passage<CacheView<K::V>>,
    accepted: Bytes,
    reader: RangeCache<K>,
    other: &K,
    part: Range<usize>,
    first: Passage<CacheView<K::V>>,
    before: Bytes,
    second: Passage<CacheView<K::V>>,
    answer: Result<Option<Bytes>, RangeError>,
    offset: int,
)
    requires
        reader.got(other, part, first, Ok::<Option<Bytes>, RangeError>(Some(before))),
        writer.delivered(key, range, response, written, Ok::<Bytes, ReadError<E>>(accepted)),
        reader.got(other, part, second, answer),
        written.before == first.after,
        second.before == written.after,
        within(
            (total(written.before.blocks) + payload_view(accepted).len()) as int,
            writer.policy().limit(),
        ),
        in_range(part, offset),
        !(other@ == key@ && in_range(range, offset)),
    ensures
        answer matches Ok(Some(bytes)) && payload_view(bytes).len() == payload_view(before).len()
            && payload_view(bytes)[offset - part.start] == payload_view(before)[offset - part.start],
{
    let start = part.start as int;
    let end = part.end as int;
    law_reads_are_repeatable(first.before, other@, start, end, other@, start, end);
    lemma_kept(
        written.before,
        writer.policy().limit(),
        key@,
        range.start as int,
        payload_view(accepted),
        other@,
        start,
        end,
        offset,
    );
}

/// A refused response leaves the cache as it was: what could be read before is
/// read again.
pub proof fn law_refused_delivery_changes_no_answer<K: CacheKey, E>(
    writer: RangeCache<K>,
    key: K,
    range: Range<usize>,
    response: Result<Bytes, E>,
    written: Passage<CacheView<K::V>>,
    refused: ReadError<E>,
    reader: RangeCache<K>,
    other: &K,
    part: Range<usize>,
    first: Passage<CacheView<K::V>>,
    before: Option<Bytes>,
    second: Passage<CacheView<K::V>>,
    after: Option<Bytes>,
)
    requires
        reader.got(other, part, first, Ok::<Option<Bytes>, RangeError>(before)),
        writer.delivered(key, range, response, written, Err::<Bytes, ReadError<E>>(refused)),
        reader.got(other, part, second, Ok::<Option<Bytes>, RangeError>(after)),
        written.before == first.after,
        second.before == written.after,
    ensures
        optional_view(after) == optional_view(before),
{
    let start = part.start as int;
    let end = part.end as int;
    law_reads_are_repeatable(first.before, other@, start, end, other@, start, end);
}

/// A range without gaps is read in full, and one with gaps is not.
pub proof fn law_get_hits_where_nothing_is_missing<K: CacheKey>(
    lister: RangeCache<K>,
    key: &K,
    range: Range<usize>,
    listed: Passage<CacheView<K::V>>,
    gaps: Vec<Range<usize>>,
    reader: RangeCache<K>,
    read: Passage<CacheView<K::V>>,
    hit: Option<Bytes>,
)
    requires
        lister.listed(key, range, listed, Ok::<Vec<Range<usize>>, RangeError>(gaps)),
        reader.got(key, range, read, Ok::<Option<Bytes>, RangeError>(hit)),
        read.before == listed.after,
    ensures
        hit is Some <==> gaps@.len() == 0,
        hit matches Some(bytes) ==> payload_view(bytes).len() == range.end - range.start,
{
    law_hit_means_no_gaps(
        read.before,
        gaps@,
        key@,
        range.start as int,
        range.end as int,
    );
}

/// A read that is repeated returns the same.
pub proof fn law_get_is_repeatable<K: CacheKey>(
    reader: RangeCache<K>,
    key: &K,
    range: Range<usize>,
    first: Passage<CacheView<K::V>>,
    hit: Option<Bytes>,
    second: Passage<CacheView<K::V>>,
    again: Option<Bytes>,
)
    requires
        reader.got(key, range, first, Ok::<Option<Bytes>, RangeError>(hit)),
        reader.got(key, range, second, Ok::<Option<Bytes>, RangeError>(again)),
        second.before == first.after,
    ensures
        optional_view(again) == optional_view(hit),
{
    let start = range.start as int;
    let end = range.end as int;
    law_reads_are_repeatable(first.before, key@, start, end, key@, start, end);
}

/// Between two snapshots a read shows exactly as one hit, one partial hit or
/// one miss, and a hit is one that returned bytes.
pub proof fn law_get_is_counted_once<K: CacheKey>(
    observer: RangeCache<K>,
    first: Passage<CacheView<K::V>>,
    before: CacheSnapshot,
    reader: RangeCache<K>,
    key: &K,
    range: Range<usize>,
    read: Passage<CacheView<K::V>>,
    hit: Option<Bytes>,
    second: Passage<CacheView<K::V>>,
    after: CacheSnapshot,
)
    requires
        observer.reported(first, before),
        reader.got(key, range, read, Ok::<Option<Bytes>, RangeError>(hit)),
        observer.reported(second, after),
        read.before == first.after,
        second.before == read.after,
    ensures
        after.hits == advanced(
            before.hits,
            if hit is Some {
                1
            } else {
                0
            },
        ),
        hit is Some ==> after.partial_hits == before.partial_hits && after.misses == before.misses,
        hit is None ==> {
            ||| after.partial_hits == advanced(before.partial_hits, 1) && after.misses
                == before.misses
            ||| after.partial_hits == before.partial_hits && after.misses == advanced(
                before.misses,
                1,
            )
        },
        after.insertions == before.insertions,
        after.evictions == before.evictions,
{
}

/// A plan asks the source for the gaps of its range, as listed, and for nothing
/// else.
pub proof fn law_plan_asks_for_what_is_missing<K: CacheKey>(
    lister: RangeCache<K>,
    key: &K,
    range: Range<usize>,
    listed: Passage<CacheView<K::V>>,
    gaps: Vec<Range<usize>>,
    planner: RangeCache<K>,
    planned: Passage<CacheView<K::V>>,
    segments: Vec<Segment>,
)
    requires
        lister.listed(key, range, listed, Ok::<Vec<Range<usize>>, RangeError>(gaps)),
        planner.planned(key, range, planned, Ok::<Vec<Segment>, RangeError>(segments)),
        planned.before == listed.after,
    ensures
        open_ranges(segments@) == gaps@,
{
    let start = range.start as int;
    let end = range.end as int;
    law_plan_fetches_the_gaps(segments@, planned.before, key@, start, end);
    crate::laws::law_gaps_are_unique(
        open_ranges(segments@),
        gaps@,
        planned.before.blocks,
        key@,
        start,
        end,
    );
}

/// A plan of a range asks the source for nothing exactly if a read of it is a
/// hit.
pub proof fn law_plan_is_complete_where_get_hits<K: CacheKey>(
    reader: RangeCache<K>,
    key: &K,
    range: Range<usize>,
    read: Passage<CacheView<K::V>>,
    hit: Option<Bytes>,
    planner: RangeCache<K>,
    planned: Passage<CacheView<K::V>>,
    segments: Vec<Segment>,
)
    requires
        reader.got(key, range, read, Ok::<Option<Bytes>, RangeError>(hit)),
        planner.planned(key, range, planned, Ok::<Vec<Segment>, RangeError>(segments)),
        planned.before == read.after,
    ensures
        complete(segments@) <==> hit is Some,
{
    let start = range.start as int;
    let end = range.end as int;
    law_reads_are_repeatable(read.before, key@, start, end, key@, start, end);
    law_full_hits_skip_the_source(segments@, planned.before, key@, start, end);
}

/// After an accepted insertion a plan has the inserted bytes at hand: every
/// offset that both ranges share lies in a segment with bytes, and the byte
/// there is that of the payload.
pub proof fn law_plan_has_what_was_inserted<K: CacheKey>(
    writer: RangeCache<K>,
    key: K,
    range: Range<usize>,
    payload: Bytes,
    written: Passage<CacheView<K::V>>,
    planner: RangeCache<K>,
    same: &K,
    wanted: Range<usize>,
    planned: Passage<CacheView<K::V>>,
    segments: Vec<Segment>,
    offset: int,
) -> (i: int)
    requires
        writer.inserted(
            key,
            range,
            payload,
            written,
            Ok::<InsertOutcome, RangeError>(InsertOutcome::Inserted),
        ),
        planner.planned(same, wanted, planned, Ok::<Vec<Segment>, RangeError>(segments)),
        planned.before == written.after,
        same@ == key@,
        in_range(range, offset),
        in_range(wanted, offset),
    ensures
        0 <= i < segments@.len(),
        in_range(segments@[i].range, offset),
        segments@[i].data matches Some(data) && payload_view(data)[offset
            - segments@[i].range.start] == payload_view(payload)[offset - range.start],
{
    let start = range.start as int;
    let end = range.end as int;
    law_inserted_bytes_can_be_read(
        written.before,
        writer.policy().limit(),
        key@,
        start,
        payload_view(payload),
    );
    law_read_returns_cached_bytes(written.after, key@, start, end, offset);
    let i = lemma_tile(segments@, wanted.start as int, wanted.end as int, offset);
    assert(segments@[i].mirrors(planned.before.blocks, key@));
    i
}

/// Some segment holds each offset of a range that is cut into segments.
proof fn lemma_tile(segments: Seq<Segment>, start: int, end: int, offset: int) -> (i: int)
    requires
        tiles(segments, start, end),
        start <= offset < end,
    ensures
        0 <= i < segments.len(),
        in_range(segments[i].range, offset),
    decreases segments.len(),
{
    let init = segments.drop_last();
    let last = segments.last();
    assert(last == segments[segments.len() - 1]);
    if offset >= last.range.start {
        segments.len() - 1
    } else {
        assert forall|i: int| 0 <= i < init.len() implies #[trigger] init[i] == segments[i] by {}
        assert(init.len() > 0) by {
            if init.len() == 0 {
                assert(segments[0] == last);
            }
        }
        assert(init.last() == segments[segments.len() - 2]);
        let i = lemma_tile(init, start, last.range.start as int, offset);
        assert(init[i] == segments[i]);
        i
    }
}

/// After everything was dropped no byte can be read.
pub proof fn law_get_misses_after_clearing<K: CacheKey>(
    cleaner: RangeCache<K>,
    cleared: Passage<CacheView<K::V>>,
    gone: Invalidation,
    reader: RangeCache<K>,
    key: &K,
    range: Range<usize>,
    read: Passage<CacheView<K::V>>,
    hit: Option<Bytes>,
)
    requires
        cleaner.cleared(cleared, gone),
        reader.got(key, range, read, Ok::<Option<Bytes>, RangeError>(hit)),
        read.before == cleared.after,
        range.start < range.end,
    ensures
        hit is None,
{
    assert(byte_at(read.before.blocks, key@, range.start as int) is None);
}

/// After a key was dropped none of its bytes can be read, and what can be read
/// under another key is the same as before.
pub proof fn law_get_after_invalidation<K: CacheKey>(
    cleaner: RangeCache<K>,
    key: &K,
    dropped: Passage<CacheView<K::V>>,
    gone: Invalidation,
    reader: RangeCache<K>,
    other: &K,
    range: Range<usize>,
    first: Passage<CacheView<K::V>>,
    before: Option<Bytes>,
    second: Passage<CacheView<K::V>>,
    after: Option<Bytes>,
)
    requires
        reader.got(other, range, first, Ok::<Option<Bytes>, RangeError>(before)),
        cleaner.invalidated(key, dropped, gone),
        reader.got(other, range, second, Ok::<Option<Bytes>, RangeError>(after)),
        dropped.before == first.after,
        second.before == dropped.after,
        range.start < range.end,
    ensures
        other@ == key@ ==> after is None,
        other@ != key@ ==> optional_view(after) == optional_view(before),
{
    let start = range.start as int;
    let end = range.end as int;
    law_reads_are_repeatable(first.before, other@, start, end, other@, start, end);
    lemma_invalidated_bytes(dropped.before.blocks, key@);
    if other@ == key@ {
        assert(byte_at(second.before.blocks, other@, start) is None);
    } else {
        assert forall|offset: int| start <= offset < end implies #[trigger] byte_at(
            dropped.after.blocks,
            other@,
            offset,
        ) == byte_at(dropped.before.blocks, other@, offset) by {}
        crate::laws::lemma_same_reads(dropped.after, dropped.before, other@, start, end);
    }
}

/// A request that was settled with bytes is no longer in the table, its place
/// among the source reads is free, and each request that shared it is answered
/// with those bytes at its next turn.
pub proof fn law_settled_bytes_reach_all_who_share<K: CacheKey, R: ?Sized, E>(
    reader: CachedReader<K, R>,
    id: usize,
    bytes: Bytes,
    settled: Passage<Slots<K::V>>,
    known: bool,
    other: CachedReader<K, R>,
    waiter: usize,
    asked: Passage<Slots<K::V>>,
    turn: Turn,
)
    requires
        reader.settled(id, Ok::<Bytes, ReadError<E>>(bytes), settled, known),
        other.polled(waiter, asked, turn),
        asked.before == settled.after,
        waiter < settled.before.len(),
        follows(settled.before[waiter as int], id as int),
        id < settled.before.len(),
        waiter != id,
    ensures
        turn matches Turn::Answered(given) && payload_view(given) == payload_view(bytes),
        settled.after[id as int] is None,
        running(settled.after) == running(settled.before) - (if runs(settled.before[id as int]) {
            1int
        } else {
            0
        }),
{
    law_departures_free_their_own_place(
        settled.before,
        id as int,
        Some(payload_view(bytes)),
    );
}

/// A request that was settled or given up is unknown at its next turn.
pub proof fn law_departed_requests_are_unknown<K: CacheKey, R: ?Sized, E>(
    reader: CachedReader<K, R>,
    id: usize,
    outcome: Result<Bytes, ReadError<E>>,
    settled: Passage<Slots<K::V>>,
    known: bool,
    asked: Passage<Slots<K::V>>,
    turn: Turn,
)
    requires
        reader.settled(id, outcome, settled, known),
        reader.polled(id, asked, turn),
        asked.before == settled.after,
    ensures
        turn is Unknown,
{
}

/// Two reads of the same bytes share one source read: the one that entered
/// first reads, and the other is answered with the bytes that it got.
pub proof fn law_identical_reads_share_one_source_read<K: CacheKey, R: ?Sized, E>(
    reader: CachedReader<K, R>,
    key: K,
    range: Range<usize>,
    entered: Passage<Slots<K::V>>,
    leader: usize,
    started: Passage<Slots<K::V>>,
    first: Turn,
    same: K,
    followed: Passage<Slots<K::V>>,
    waiter: usize,
    waited: Passage<Slots<K::V>>,
    second: Turn,
    bytes: Bytes,
    settled: Passage<Slots<K::V>>,
    known: bool,
    answered: Passage<Slots<K::V>>,
    third: Turn,
)
    requires
        reader.joined(key, range, entered, leader),
        reader.polled(leader, started, first),
        first is Fetch,
        reader.joined(same, range, followed, waiter),
        same@ == key@,
        reader.polled(waiter, waited, second),
        reader.settled(leader, Ok::<Bytes, ReadError<E>>(bytes), settled, known),
        reader.polled(waiter, answered, third),
        started.before == entered.after,
        followed.before == started.after,
        waited.before == followed.after,
        settled.before == waited.after,
        answered.before == settled.after,
    ensures
        second is Wait,
        known,
        third matches Turn::Answered(given) && payload_view(given) == payload_view(bytes),
{
    let start = range.start as int;
    let end = range.end as int;
    assert(leads_for(started.after[leader as int], key@, start, end));
    law_identical_requests_share(followed.before, followed.after, leader as int, waiter as int);
    assert(follows(settled.before[waiter as int], leader as int));
}

/// When a source read fails, one of those who shared it reads in its place at
/// its next turn.
pub proof fn law_failed_reads_are_taken_over<K: CacheKey, R: ?Sized, E>(
    reader: CachedReader<K, R>,
    id: usize,
    error: ReadError<E>,
    settled: Passage<Slots<K::V>>,
    known: bool,
    waiter: usize,
    asked: Passage<Slots<K::V>>,
    turn: Turn,
)
    requires
        reader.settled(id, Err::<Bytes, ReadError<E>>(error), settled, known),
        reader.polled(waiter, asked, turn),
        asked.before == settled.after,
        id < settled.before.len(),
        runs(settled.before[id as int]),
        waiter == heir(settled.before, id as int),
    ensures
        turn is Fetch,
{
    let slots = settled.before;
    crate::fetch::lemma_heir(slots, id as int);
    law_failure_promotes_one(slots, id as int, waiter as int);
    law_departures_free_their_own_place(slots, id as int, None);
}

/// When a source read is given up, one of those who shared it reads in its
/// place at its next turn.
pub proof fn law_abandoned_reads_are_taken_over<K: CacheKey, R: ?Sized>(
    reader: CachedReader<K, R>,
    id: usize,
    left: Passage<Slots<K::V>>,
    known: bool,
    waiter: usize,
    asked: Passage<Slots<K::V>>,
    turn: Turn,
)
    requires
        reader.abandoned(id, left, known),
        reader.polled(waiter, asked, turn),
        asked.before == left.after,
        id < left.before.len(),
        runs(left.before[id as int]),
        waiter == heir(left.before, id as int),
    ensures
        turn is Fetch,
{
    let slots = left.before;
    crate::fetch::lemma_heir(slots, id as int);
    law_failure_promotes_one(slots, id as int, waiter as int);
    law_departures_free_their_own_place(slots, id as int, None);
}

/// A request is told to read only while fewer than the configured limit do, and
/// no turn takes the number of source reads past it.
pub proof fn law_turns_respect_the_configured_limit<K: CacheKey, R: ?Sized>(
    reader: CachedReader<K, R>,
    id: usize,
    asked: Passage<Slots<K::V>>,
    turn: Turn,
)
    requires
        reader.polled(id, asked, turn),
    ensures
        turn is Fetch ==> running(asked.before) < reader.settings().limit().value(),
        running(asked.after) <= reader.settings().limit().value(),
{
}

} // verus!
