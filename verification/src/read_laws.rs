//! Laws of read-through.

use crate::laws::law_insert_alters_only_its_range;
use crate::lemmas::{lemma_gaps_extended, lemma_gaps_pushed, lemma_invalidated_bytes, lemma_touched};
use crate::payload::payload_view;
use crate::plan::{
    complete, excerpt, filled, is_plan, joined, lemma_open_ranges, open_count, open_ranges, tiles,
    Segment,
};
use crate::reader::{accepts, delivers, handed_over, ReadError};
use crate::view::{are_gaps, byte_at, content, resident, Block, CacheView};
use bytes::Bytes;
use std::ops::Range;
use vstd::prelude::*;

verus! {

/// Every cached byte is the one that `source` has at its offset.
pub open spec fn coherent<Q>(blocks: Seq<Block<Q>>, source: spec_fn(Q, int) -> u8) -> bool {
    forall|key: Q, offset: int|
        (#[trigger] byte_at(blocks, key, offset)) matches Some(byte) ==> byte == source(key, offset)
}

/// A new cache is coherent with every source.
pub proof fn law_empty_is_coherent<Q>(source: spec_fn(Q, int) -> u8)
    ensures
        coherent(CacheView::<Q>::empty().blocks, source),
{
}

/// A cache that holds bytes of a source only stays so when bytes of the source
/// are inserted.
pub proof fn law_insert_keeps_coherence<Q>(
    before: CacheView<Q>,
    limit: Option<nat>,
    key: Q,
    start: int,
    end: int,
    source: spec_fn(Q, int) -> u8,
)
    requires
        before.wf(),
        coherent(before.blocks, source),
        0 <= start <= end <= usize::MAX,
    ensures
        coherent(
            before.after_insert(limit, key, start, excerpt(source, key, start, end)).blocks,
            source,
        ),
{
    let payload = excerpt(source, key, start, end);
    let after = before.after_insert(limit, key, start, payload);
    assert forall|other: Q, offset: int|
        (#[trigger] byte_at(after.blocks, other, offset)) is Some implies byte_at(
        after.blocks,
        other,
        offset,
    ).unwrap() == source(other, offset) by {
        law_insert_alters_only_its_range(before, limit, key, start, payload, other, offset);
        assert(byte_at(before.blocks, other, offset) == byte_at(before.blocks, other, offset));
    }
}

/// A cache that holds bytes of a source only stays so through reads,
/// invalidations and clearing.
pub proof fn law_other_operations_keep_coherence<Q>(
    before: CacheView<Q>,
    key: Q,
    start: int,
    end: int,
    source: spec_fn(Q, int) -> u8,
)
    requires
        before.wf(),
        coherent(before.blocks, source),
    ensures
        coherent(before.after_read(key, start, end).blocks, source),
        coherent(before.after_invalidate(key).blocks, source),
        coherent(before.after_clear().blocks, source),
{
    lemma_touched(before.blocks, key, start, end);
    lemma_invalidated_bytes(before.blocks, key);
    assert forall|other: Q, offset: int|
        (#[trigger] byte_at(before.after_read(key, start, end).blocks, other, offset))
            is Some implies byte_at(before.after_read(key, start, end).blocks, other, offset).unwrap()
        == source(other, offset) by {
        assert(byte_at(before.blocks, other, offset) is Some);
    }
    assert forall|other: Q, offset: int|
        (#[trigger] byte_at(before.after_invalidate(key).blocks, other, offset)) is Some implies byte_at(
        before.after_invalidate(key).blocks,
        other,
        offset,
    ).unwrap() == source(other, offset) by {
        assert(byte_at(before.blocks, other, offset) is Some);
    }
}

/// A full hit on a coherent cache returns the bytes of the source.
pub proof fn law_hit_returns_source_bytes<Q>(
    before: CacheView<Q>,
    key: Q,
    start: int,
    end: int,
    source: spec_fn(Q, int) -> u8,
)
    requires
        coherent(before.blocks, source),
        start <= end,
        before.read(key, start, end) is Some,
    ensures
        before.read(key, start, end) == Some(excerpt(source, key, start, end)),
{
    lemma_content_is_excerpt(before.blocks, key, start, end, source);
}

/// The cached bytes of a range are those of the source.
proof fn lemma_content_is_excerpt<Q>(
    blocks: Seq<Block<Q>>,
    key: Q,
    start: int,
    end: int,
    source: spec_fn(Q, int) -> u8,
)
    requires
        coherent(blocks, source),
        start <= end,
        resident(blocks, key, start, end),
    ensures
        content(blocks, key, start, end) == excerpt(source, key, start, end),
{
    assert forall|i: int| 0 <= i < end - start implies #[trigger] content(blocks, key, start, end)[i]
        == source(key, start + i) by {
        assert(byte_at(blocks, key, start + i) is Some);
    }
    assert(content(blocks, key, start, end) =~= excerpt(source, key, start, end));
}

/// Segments that make up a range and hold the bytes of the source join to the
/// bytes of the source.
pub proof fn law_segments_join_to_source_bytes<Q>(
    segments: Seq<Segment>,
    key: Q,
    start: int,
    end: int,
    source: spec_fn(Q, int) -> u8,
)
    requires
        tiles(segments, start, end),
        forall|i: int| 0 <= i < segments.len() ==> (#[trigger] segments[i]).agrees(source, key),
    ensures
        joined(segments) == excerpt(source, key, start, end),
        start <= end,
    decreases segments.len(),
{
    if segments.len() == 0 {
        assert(excerpt(source, key, start, end) =~= Seq::empty());
    } else {
        let init = segments.drop_last();
        let last = segments.last();
        let middle = last.range.start as int;
        assert forall|i: int| 0 <= i < init.len() implies #[trigger] init[i] == segments[i] by {}
        assert(last == segments[segments.len() - 1]);
        if init.len() > 0 {
            assert(init.last() == segments[segments.len() - 2]);
        }
        law_segments_join_to_source_bytes(init, key, start, middle, source);
        assert(last.agrees(source, key));
        assert(joined(segments) =~= excerpt(source, key, start, end));
    }
}

/// A read through a coherent cache returns exactly the bytes of the source, if
/// the source returned its bytes for every gap.
pub proof fn law_read_through_is_exact<Q>(
    segments: Seq<Segment>,
    fetched: Seq<Bytes>,
    before: CacheView<Q>,
    key: Q,
    start: int,
    end: int,
    source: spec_fn(Q, int) -> u8,
)
    requires
        is_plan(segments, before.blocks, key, start, end),
        coherent(before.blocks, source),
        fetched.len() == open_count(segments),
        forall|i: int|
            0 <= i < segments.len() && (#[trigger] segments[i]).data is None ==> payload_view(
                fetched[open_count(segments.take(i)) as int],
            ) == excerpt(
                source,
                key,
                segments[i].range.start as int,
                segments[i].range.end as int,
            ),
    ensures
        joined(filled(segments, fetched)) == excerpt(source, key, start, end),
{
    let all = filled(segments, fetched);
    assert forall|i: int| 0 <= i < all.len() implies (#[trigger] all[i]).agrees(source, key)
        && all[i].range == segments[i].range by {
        assert(segments[i].mirrors(before.blocks, key));
        assert(segments[i].range.start < segments[i].range.end);
        if segments[i].data is Some {
            lemma_content_is_excerpt(
                before.blocks,
                key,
                segments[i].range.start as int,
                segments[i].range.end as int,
                source,
            );
        }
    }
    assert forall|i: int, j: int|
        #![trigger all[i], all[j]]
        0 <= i && j == i + 1 && j < all.len() implies all[i].range.end == all[j].range.start by {
        assert(segments[i].range.end == segments[j].range.start);
    }
    assert forall|i: int| 0 <= i < all.len() implies (#[trigger] all[i]).range.start
        < all[i].range.end by {
        assert(segments[i].range.start < segments[i].range.end);
    }
    assert(tiles(all, start, end));
    law_segments_join_to_source_bytes(all, key, start, end, source);
}

/// A plan needs nothing from the source exactly if the whole range is cached.
pub proof fn law_full_hits_skip_the_source<Q>(
    segments: Seq<Segment>,
    before: CacheView<Q>,
    key: Q,
    start: int,
    end: int,
)
    requires
        is_plan(segments, before.blocks, key, start, end),
    ensures
        complete(segments) <==> before.read(key, start, end) is Some,
{
    law_plan_fetches_the_gaps(segments, before, key, start, end);
    crate::laws::law_hit_means_no_gaps(before, open_ranges(segments), key, start, end);
    lemma_open_ranges(segments);
}

/// What a plan asks of the source is exactly the gaps of the range.
pub proof fn law_plan_fetches_the_gaps<Q>(
    segments: Seq<Segment>,
    before: CacheView<Q>,
    key: Q,
    start: int,
    end: int,
)
    requires
        is_plan(segments, before.blocks, key, start, end),
    ensures
        are_gaps(open_ranges(segments), before.blocks, key, start, end),
    decreases segments.len(),
{
    lemma_planned_gaps(segments, before, key, start, end);
}

/// What a plan asks of the source is exactly the gaps of the range, and ends
/// before the last segment if that one is cached.
proof fn lemma_planned_gaps<Q>(
    segments: Seq<Segment>,
    before: CacheView<Q>,
    key: Q,
    start: int,
    end: int,
)
    requires
        is_plan(segments, before.blocks, key, start, end),
    ensures
        start <= end,
        are_gaps(open_ranges(segments), before.blocks, key, start, end),
        segments.len() > 0 && segments.last().data is Some && open_ranges(segments).len() > 0
            ==> open_ranges(segments).last().end <= segments.last().range.start,
    decreases segments.len(),
{
    let blocks = before.blocks;
    if segments.len() > 0 {
        let init = segments.drop_last();
        let last = segments.last();
        let middle = last.range.start as int;
        assert forall|i: int| 0 <= i < init.len() implies #[trigger] init[i] == segments[i] by {}
        assert(last == segments[segments.len() - 1]);
        if init.len() > 0 {
            assert(init.last() == segments[segments.len() - 2]);
        }
        assert forall|i: int| 0 <= i < init.len() implies (#[trigger] init[i]).mirrors(
            blocks,
            key,
        ) by {
            assert(segments[i].mirrors(blocks, key));
        }
        assert(is_plan(init, blocks, key, start, middle));
        lemma_planned_gaps(init, before, key, start, middle);
        let gaps = open_ranges(init);
        assert(last.mirrors(blocks, key));
        if last.data is Some {
            lemma_gaps_extended(gaps, blocks, key, start, middle, end);
            if gaps.len() > 0 {
                assert(gaps.last() == gaps[gaps.len() - 1]);
            }
        } else {
            if gaps.len() > 0 {
                assert(init.len() > 0);
                assert(init.last().range.start < init.last().range.end);
            }
            lemma_gaps_pushed(gaps, last.range, blocks, key, start);
        }
    }
}

/// A source that fails, or returns too few or too many bytes, leaves the cache
/// as it was.
pub proof fn law_failures_are_not_cached<Q, E>(
    before: CacheView<Q>,
    after: CacheView<Q>,
    limit: Option<nat>,
    key: Q,
    range: Range<usize>,
    response: Result<Bytes, E>,
    answer: Result<Bytes, ReadError<E>>,
)
    requires
        delivers(before, after, limit, key, range, response, answer),
        response is Err || payload_view(response->Ok_0).len() != range.end - range.start,
    ensures
        answer is Err,
        after == before,
{
}

/// The bytes of a response are returned even if they are too large to keep.
pub proof fn law_oversized_responses_are_returned<Q, E>(
    before: CacheView<Q>,
    after: CacheView<Q>,
    limit: Option<nat>,
    key: Q,
    range: Range<usize>,
    bytes: Bytes,
    answer: Result<Bytes, ReadError<E>>,
)
    requires
        delivers(before, after, limit, key, range, Ok::<Bytes, E>(bytes), answer),
        range.start <= range.end,
        payload_view(bytes).len() == range.end - range.start,
        before.insertion(limit, key, range.start as int, payload_view(bytes)) is TooLarge,
    ensures
        answer == Ok::<Bytes, ReadError<E>>(bytes),
        after.blocks == before.blocks,
{
}

/// What a request hands to those who share it is as long as the range that was
/// read.
pub proof fn law_handed_bytes_fit_the_range<E>(
    range: Range<usize>,
    response: Result<Bytes, E>,
    answer: Result<Bytes, ReadError<E>>,
)
    requires
        accepts(range, response, answer),
    ensures
        handed_over(answer) matches Some(bytes) ==> bytes.len() == range.end - range.start,
{
}

} // verus!
