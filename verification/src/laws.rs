//! Laws of the cache: what holds of every content and every operation.

use crate::capacity::{CacheCapacity, Invalidation};
use crate::lemmas::{
    lemma_admitted_bytes, lemma_admitted_total, lemma_admitted_well_formed, lemma_byte_at,
    lemma_filter_extremes, lemma_filter_members, lemma_filter_well_formed, lemma_holder,
    lemma_invalidated_bytes, lemma_keys_push, lemma_left_side, lemma_no_keys, lemma_one_block,
    lemma_right_side, lemma_skip_well_formed, lemma_spanned, lemma_surplus, lemma_total_filter,
    lemma_touched, lemma_touched_one, lemma_untouched,
};
use crate::view::{
    absent, admitted, advanced, are_gaps, byte_at, content, in_range, merged, not_owned_by,
    owned_by, resident, surplus, total, well_formed, within, Block, CacheView, Stats,
};
use std::ops::Range;
use vstd::prelude::*;

verus! {

/// A new cache is valid under every ceiling.
pub proof fn law_empty_is_valid<Q>(limit: Option<nat>)
    ensures
        CacheView::<Q>::empty().valid(limit),
{
}

/// A read keeps a cache valid.
pub proof fn law_read_keeps_valid<Q>(
    content: CacheView<Q>,
    limit: Option<nat>,
    key: Q,
    start: int,
    end: int,
)
    requires
        content.valid(limit),
    ensures
        content.after_read(key, start, end).valid(limit),
{
    lemma_touched(content.blocks, key, start, end);
}

/// Enforcing a ceiling establishes it and keeps the blocks well-formed.
pub proof fn law_enforcement_makes_valid<Q>(content: CacheView<Q>, limit: Option<nat>)
    requires
        content.wf(),
    ensures
        content.enforced(limit).valid(limit),
{
    if let Some(most) = limit {
        lemma_surplus(content.blocks, most);
        lemma_skip_well_formed(content.blocks, surplus(content.blocks, most) as int);
    }
}

/// An insertion keeps a cache valid: the bytes never exceed the ceiling, and
/// blocks of one key neither overlap nor touch.
pub proof fn law_insert_keeps_valid<Q>(
    content: CacheView<Q>,
    limit: Option<nat>,
    key: Q,
    start: int,
    payload: Seq<u8>,
)
    requires
        content.valid(limit),
        0 <= start,
        start + payload.len() <= usize::MAX,
    ensures
        content.after_insert(limit, key, start, payload).valid(limit),
{
    if payload.len() > 0 {
        lemma_admitted_well_formed(content.blocks, key, start, payload);
        let grown = CacheView {
            blocks: admitted(content.blocks, key, start, payload),
            stats: Stats {
                insertions: advanced(content.stats.insertions, 1),
                ..content.stats
            },
        };
        law_enforcement_makes_valid(grown, limit);
    } else {
        assert(resident(content.blocks, key, start, start + payload.len()));
    }
}

/// An invalidation keeps a cache valid.
pub proof fn law_invalidate_keeps_valid<Q>(content: CacheView<Q>, limit: Option<nat>, key: Q)
    requires
        content.valid(limit),
    ensures
        content.after_invalidate(key).valid(limit),
{
    lemma_filter_well_formed(content.blocks, not_owned_by(key));
    lemma_total_filter(content.blocks, not_owned_by(key), owned_by(key));
}

/// Clearing keeps a cache valid.
pub proof fn law_clear_keeps_valid<Q>(content: CacheView<Q>, limit: Option<nat>)
    requires
        content.valid(limit),
    ensures
        content.after_clear().valid(limit),
{
}

/// A range has one list of gaps only.
pub proof fn law_gaps_are_unique<Q>(
    left: Seq<Range<usize>>,
    right: Seq<Range<usize>>,
    blocks: Seq<Block<Q>>,
    key: Q,
    start: int,
    end: int,
)
    requires
        are_gaps(left, blocks, key, start, end),
        are_gaps(right, blocks, key, start, end),
    ensures
        left == right,
{
    lemma_gaps_prefix(left, right, blocks, key, start, end, left.len());
    lemma_gaps_prefix(right, left, blocks, key, start, end, right.len());
    assert(left =~= right);
}

/// The first gaps of one list are those of the other.
proof fn lemma_gaps_prefix<Q>(
    left: Seq<Range<usize>>,
    right: Seq<Range<usize>>,
    blocks: Seq<Block<Q>>,
    key: Q,
    start: int,
    end: int,
    count: nat,
)
    requires
        are_gaps(left, blocks, key, start, end),
        are_gaps(right, blocks, key, start, end),
        count <= left.len(),
    ensures
        count <= right.len(),
        forall|i: int| 0 <= i < count ==> #[trigger] left[i] == right[i],
    decreases count,
{
    if count > 0 {
        let n = count - 1;
        lemma_gaps_prefix(left, right, blocks, key, start, end, n as nat);
        // The first offset of the next gap on the left is in a gap on the right
        // that is none of the earlier ones.
        let first = left[n].start as int;
        assert(in_range(left[n], first));
        assert(byte_at(blocks, key, first) is None);
        let j = choose|j: int| 0 <= j < right.len() && in_range(#[trigger] right[j], first);
        if j < n {
            assert(left[j] == right[j]);
            assert(left[j].end < left[n].start);
        }
        assert(n < right.len());
        // The first offset of the next gap on the right is in a gap on the left
        // that is none of the earlier ones.
        let other = right[n].start as int;
        assert(in_range(right[n], other));
        assert(byte_at(blocks, key, other) is None);
        let k = choose|k: int| 0 <= k < left.len() && in_range(#[trigger] left[k], other);
        if k < n {
            assert(left[k] == right[k]);
            assert(right[k].end < right[n].start);
        }
        assert(left[n].start <= left[k].start);
        assert(right[n].start <= right[j].start);
        assert(left[n].start == right[n].start);
        lemma_gap_no_longer(left, right, blocks, key, start, end, n);
        lemma_gap_no_longer(right, left, blocks, key, start, end, n);
    }
}

/// Gaps that begin together end together.
proof fn lemma_gap_no_longer<Q>(
    left: Seq<Range<usize>>,
    right: Seq<Range<usize>>,
    blocks: Seq<Block<Q>>,
    key: Q,
    start: int,
    end: int,
    n: int,
)
    requires
        are_gaps(left, blocks, key, start, end),
        are_gaps(right, blocks, key, start, end),
        0 <= n < left.len(),
        n < right.len(),
        left[n].start == right[n].start,
    ensures
        right[n].end <= left[n].end,
{
    if left[n].end < right[n].end {
        let offset = left[n].end as int;
        assert(in_range(right[n], offset));
        assert(byte_at(blocks, key, offset) is None);
        let k = choose|k: int| 0 <= k < left.len() && in_range(#[trigger] left[k], offset);
        if k < n {
            assert(left[k].end < left[n].start);
        } else if k > n {
            assert(left[n].end < left[k].start);
        }
    }
}

/// A read is a full hit exactly if its range has no gaps.
pub proof fn law_hit_means_no_gaps<Q>(
    content: CacheView<Q>,
    gaps: Seq<Range<usize>>,
    key: Q,
    start: int,
    end: int,
)
    requires
        are_gaps(gaps, content.blocks, key, start, end),
    ensures
        content.read(key, start, end) is Some <==> gaps.len() == 0,
{
    if gaps.len() > 0 {
        let offset = gaps[0].start as int;
        assert(in_range(gaps[0], offset));
        assert(byte_at(content.blocks, key, offset) is None);
    } else {
        assert forall|offset: int| start <= offset < end implies (#[trigger] byte_at(
            content.blocks,
            key,
            offset,
        )) is Some by {
            assert(!exists|i: int| 0 <= i < gaps.len() && in_range(#[trigger] gaps[i], offset));
        }
    }
}

/// A full hit on a range that is not empty is served by one block: cached bytes
/// that are adjacent are in the same block.
pub proof fn law_hit_is_one_block<Q>(content: CacheView<Q>, key: Q, start: int, end: int)
    requires
        content.wf(),
        start < end,
        content.read(key, start, end) is Some,
    ensures
        exists|i: int|
            {
                &&& 0 <= i < content.blocks.len()
                &&& (#[trigger] content.blocks[i]).key == key
                &&& content.blocks[i].start <= start < end <= content.blocks[i].end()
                &&& content.read(key, start, end) == Some(
                    content.blocks[i].bytes.subrange(
                        start - content.blocks[i].start,
                        end - content.blocks[i].start,
                    ),
                )
            },
{
    let i = lemma_one_block(content.blocks, key, start, end);
    lemma_spanned(content.blocks, i, key, start, end);
    assert(content.blocks[i].key == key);
}

/// A read returns as many bytes as were asked for, each of them the byte that
/// is cached at its offset.
pub proof fn law_read_returns_cached_bytes<Q>(
    content: CacheView<Q>,
    key: Q,
    start: int,
    end: int,
    offset: int,
)
    requires
        start <= offset < end,
        content.read(key, start, end) is Some,
    ensures
        content.read(key, start, end).unwrap().len() == end - start,
        byte_at(content.blocks, key, offset) == Some(
            content.read(key, start, end).unwrap()[offset - start],
        ),
{
    assert(byte_at(content.blocks, key, offset) is Some);
}

/// An empty read returns no bytes and leaves the order of use as it is.
pub proof fn law_empty_read<Q>(content: CacheView<Q>, key: Q, offset: int)
    ensures
        content.read(key, offset, offset) == Some(Seq::<u8>::empty()),
        content.after_read(key, offset, offset).blocks == content.blocks,
{
    assert(content.read(key, offset, offset).unwrap() =~= Seq::<u8>::empty());
    lemma_untouched(content.blocks, key, offset);
}

/// An empty insertion changes nothing.
pub proof fn law_empty_insert<Q>(content: CacheView<Q>, limit: Option<nat>, key: Q, offset: int)
    ensures
        content.insertion(limit, key, offset, Seq::empty()) is AlreadyCovered,
        content.after_insert(limit, key, offset, Seq::empty()) == content,
{
    assert(resident(content.blocks, key, offset, offset));
}

/// A read changes no cached byte.
pub proof fn law_read_keeps_bytes<Q>(
    content: CacheView<Q>,
    key: Q,
    start: int,
    end: int,
    other: Q,
    offset: int,
)
    requires
        content.wf(),
    ensures
        byte_at(content.after_read(key, start, end).blocks, other, offset) == byte_at(
            content.blocks,
            other,
            offset,
        ),
{
    lemma_touched(content.blocks, key, start, end);
}

/// A read changes what no other read returns.
pub proof fn law_reads_are_repeatable<Q>(
    content: CacheView<Q>,
    key: Q,
    start: int,
    end: int,
    other: Q,
    first: int,
    last: int,
)
    requires
        content.wf(),
    ensures
        content.after_read(key, start, end).read(other, first, last) == content.read(
            other,
            first,
            last,
        ),
{
    lemma_touched(content.blocks, key, start, end);
    lemma_same_reads(content.after_read(key, start, end), content, other, first, last);
}

/// Contents that agree on the bytes of a range agree on what a read of it
/// returns.
pub(crate) proof fn lemma_same_reads<Q>(
    left: CacheView<Q>,
    right: CacheView<Q>,
    key: Q,
    start: int,
    end: int,
)
    requires
        forall|offset: int|
            start <= offset < end ==> #[trigger] byte_at(left.blocks, key, offset) == byte_at(
                right.blocks,
                key,
                offset,
            ),
    ensures
        left.read(key, start, end) == right.read(key, start, end),
{
    if resident(right.blocks, key, start, end) {
        assert forall|offset: int| start <= offset < end implies (#[trigger] byte_at(
            left.blocks,
            key,
            offset,
        )) is Some by {
            assert(byte_at(right.blocks, key, offset) is Some);
        }
        assert forall|i: int| 0 <= i < end - start implies #[trigger] content(
            left.blocks,
            key,
            start,
            end,
        )[i] == content(right.blocks, key, start, end)[i] by {
            assert(byte_at(left.blocks, key, start + i) == byte_at(right.blocks, key, start + i));
        }
        assert(content(left.blocks, key, start, end) =~= content(right.blocks, key, start, end));
    } else {
        let offset = choose|offset: int|
            start <= offset < end && (#[trigger] byte_at(right.blocks, key, offset)) is None;
        assert(byte_at(left.blocks, key, offset) is None);
    }
}

/// Each read is counted once: as a hit if all of its bytes are cached, as a
/// miss if none is, and as a partial hit otherwise.
pub proof fn law_reads_are_counted<Q>(content: CacheView<Q>, key: Q, start: int, end: int)
    requires
        start < end,
    ensures
        ({
            let before = content.stats;
            let after = content.after_read(key, start, end).stats;
            let full = resident(content.blocks, key, start, end);
            let none = absent(content.blocks, key, start, end);
            &&& !(full && none)
            &&& after.hits == advanced(before.hits, if full {
                1
            } else {
                0
            })
            &&& after.misses == advanced(before.misses, if none {
                1
            } else {
                0
            })
            &&& after.partial_hits == advanced(before.partial_hits, if !full && !none {
                1
            } else {
                0
            })
            &&& after.insertions == before.insertions
            &&& after.rejections == before.rejections
            &&& after.evictions == before.evictions
        }),
{
    assert(byte_at(content.blocks, key, start) is Some || byte_at(content.blocks, key, start) is None);
}

/// A hit makes the block that served it the most recently used.
pub proof fn law_hit_is_most_recent<Q>(content: CacheView<Q>, key: Q, start: int, end: int)
    requires
        content.wf(),
        start < end,
        content.read(key, start, end) is Some,
    ensures
        ({
            let blocks = content.after_read(key, start, end).blocks;
            &&& blocks.len() == content.blocks.len() > 0
            &&& blocks.last().key == key
            &&& blocks.last().start <= start < end <= blocks.last().end()
        }),
{
    let i = lemma_one_block(content.blocks, key, start, end);
    lemma_touched_one(content.blocks, i, key, start, end);
}

/// An insertion that is covered already leaves the cache as it is.
pub proof fn law_covered_insert_is_ignored<Q>(
    content: CacheView<Q>,
    limit: Option<nat>,
    key: Q,
    start: int,
    payload: Seq<u8>,
)
    requires
        content.read(key, start, start + payload.len()) is Some,
    ensures
        content.insertion(limit, key, start, payload) is AlreadyCovered,
        content.after_insert(limit, key, start, payload) == content,
{
}

/// An insertion that is too large changes no block and counts as a rejection.
pub proof fn law_oversized_insert_keeps_blocks<Q>(
    content: CacheView<Q>,
    limit: Option<nat>,
    key: Q,
    start: int,
    payload: Seq<u8>,
)
    requires
        content.insertion(limit, key, start, payload) is TooLarge,
    ensures
        content.after_insert(limit, key, start, payload).blocks == content.blocks,
        content.after_insert(limit, key, start, payload).stats == (Stats {
            rejections: advanced(content.stats.rejections, 1),
            ..content.stats
        }),
{
}

/// A cache without a ceiling never refuses an insertion, and an insertion
/// replaces the bytes of its own range and no others.
pub proof fn law_unbounded_insert<Q>(
    content: CacheView<Q>,
    key: Q,
    start: int,
    payload: Seq<u8>,
    other: Q,
    offset: int,
)
    requires
        content.wf(),
        0 <= start,
        start + payload.len() <= usize::MAX,
        content.read(key, start, start + payload.len()) is None,
    ensures
        content.insertion(None, key, start, payload) is Inserted,
        byte_at(content.after_insert(None, key, start, payload).blocks, other, offset) == if other
            == key && start <= offset < start + payload.len() {
            Some(payload[offset - start])
        } else {
            byte_at(content.blocks, other, offset)
        },
{
    assert(payload.len() > 0);
    lemma_admitted_bytes(content.blocks, key, start, payload);
}

/// An accepted insertion can be read back, whatever made way for it.
pub proof fn law_inserted_bytes_can_be_read<Q>(
    content: CacheView<Q>,
    limit: Option<nat>,
    key: Q,
    start: int,
    payload: Seq<u8>,
)
    requires
        content.wf(),
        0 <= start,
        start + payload.len() <= usize::MAX,
        content.insertion(limit, key, start, payload) is Inserted,
    ensures
        content.after_insert(limit, key, start, payload).read(
            key,
            start,
            start + payload.len(),
        ) == Some(payload),
{
    let end = start + payload.len();
    let after = content.after_insert(limit, key, start, payload);
    let grown = admitted(content.blocks, key, start, payload);
    let block = merged(content.blocks, key, start, payload);
    assert(payload.len() > 0) by {
        if payload.len() == 0 {
            assert(resident(content.blocks, key, start, end));
        }
    }
    lemma_admitted_well_formed(content.blocks, key, start, payload);
    lemma_left_side(content.blocks, key, start);
    lemma_right_side(content.blocks, key, end);
    assert(grown.last() == block);
    law_enforcement_keeps_the_newest(grown, limit);
    let last = after.blocks.len() - 1;
    assert(after.blocks[last] == block);
    assert(well_formed(after.blocks)) by {
        if let Some(most) = limit {
            lemma_surplus(grown, most);
            lemma_skip_well_formed(grown, surplus(grown, most) as int);
        }
    }
    lemma_spanned(after.blocks, last, key, start, end);
    assert(block.bytes.subrange(start - block.start, end - block.start) =~= payload);
}

/// Enforcing a ceiling that the most recently used block respects keeps that
/// block.
pub proof fn law_enforcement_keeps_the_newest<Q>(blocks: Seq<Block<Q>>, limit: Option<nat>)
    requires
        blocks.len() > 0,
        within(blocks.last().bytes.len() as int, limit),
    ensures
        limit matches Some(most) ==> surplus(blocks, most) < blocks.len() && blocks.skip(
            surplus(blocks, most) as int,
        ).last() == blocks.last(),
    decreases blocks.len(),
{
    if let Some(most) = limit {
        if total(blocks) > most {
            let rest = blocks.drop_first();
            if rest.len() == 0 {
                assert(blocks.drop_last() =~= Seq::empty());
                assert(total(blocks.drop_last()) == 0);
            } else {
                assert(rest.last() == blocks.last());
                law_enforcement_keeps_the_newest(rest, limit);
                assert(blocks.skip(surplus(blocks, most) as int) =~= rest.skip(
                    surplus(rest, most) as int,
                ));
            }
        } else {
            assert(blocks.skip(0) =~= blocks);
        }
    }
}

/// Enforcing a ceiling evicts the least recently used blocks, and no more of
/// them than it takes.
pub proof fn law_eviction_takes_the_oldest<Q>(content: CacheView<Q>, most: nat, kept: int)
    requires
        0 <= kept <= content.blocks.len(),
        total(content.blocks.skip(kept)) <= most,
    ensures
        content.enforced(Some(most)).blocks.len() >= content.blocks.len() - kept,
        exists|count: int|
            0 <= count <= kept && content.enforced(Some(most)).blocks
                == #[trigger] content.blocks.skip(count),
{
    lemma_surplus(content.blocks, most);
    let count = surplus(content.blocks, most) as int;
    if count > kept {
        assert(total(content.blocks.skip(kept)) > most);
    }
    assert(content.enforced(Some(most)).blocks == content.blocks.skip(count));
}

/// A cache that respects its ceiling has nothing to evict.
pub proof fn law_valid_content_is_kept<Q>(content: CacheView<Q>, limit: Option<nat>)
    requires
        content.valid(limit),
    ensures
        content.enforced(limit) == content,
{
    if let Some(most) = limit {
        assert(content.blocks.skip(0) =~= content.blocks);
    }
}

/// Whatever an insertion evicts, every byte that stays is the one that was
/// inserted or the one that was there before.
pub proof fn law_insert_alters_only_its_range<Q>(
    content: CacheView<Q>,
    limit: Option<nat>,
    key: Q,
    start: int,
    payload: Seq<u8>,
    other: Q,
    offset: int,
)
    requires
        content.wf(),
        0 <= start,
        start + payload.len() <= usize::MAX,
    ensures
        ({
            let byte = byte_at(
                content.after_insert(limit, key, start, payload).blocks,
                other,
                offset,
            );
            ||| byte is None
            ||| byte == byte_at(content.blocks, other, offset)
            ||| other == key && start <= offset < start + payload.len() && byte == Some(
                payload[offset - start],
            )
        }),
{
    if content.insertion(limit, key, start, payload) is Inserted {
        assert(payload.len() > 0) by {
            if payload.len() == 0 {
                assert(resident(content.blocks, key, start, start + payload.len()));
            }
        }
        let grown = admitted(content.blocks, key, start, payload);
        lemma_admitted_well_formed(content.blocks, key, start, payload);
        lemma_admitted_bytes(content.blocks, key, start, payload);
        assert(byte_at(grown, other, offset) == byte_at(grown, other, offset));
        if let Some(most) = limit {
            let count = surplus(grown, most) as int;
            let rest = grown.skip(count);
            lemma_surplus(grown, most);
            lemma_skip_well_formed(grown, count);
            if byte_at(rest, other, offset) is Some {
                let i = lemma_holder(rest, other, offset);
                assert(rest[i] == grown[count + i]);
                lemma_byte_at(grown, count + i, other, offset);
            }
        }
    }
}

/// Without evictions, what is inserted under one key does not show under
/// another.
pub proof fn law_keys_are_isolated<Q>(
    content: CacheView<Q>,
    key: Q,
    start: int,
    payload: Seq<u8>,
    other: Q,
    first: int,
    last: int,
)
    requires
        content.wf(),
        0 <= start,
        start + payload.len() <= usize::MAX,
        other != key,
    ensures
        content.after_insert(None, key, start, payload).read(other, first, last) == content.read(
            other,
            first,
            last,
        ),
{
    let after = content.after_insert(None, key, start, payload);
    if content.insertion(None, key, start, payload) is Inserted {
        assert forall|offset: int| first <= offset < last implies #[trigger] byte_at(
            after.blocks,
            other,
            offset,
        ) == byte_at(content.blocks, other, offset) by {
            law_unbounded_insert(content, key, start, payload, other, offset);
        }
        lemma_same_reads(after, content, other, first, last);
    }
}

/// Invalidation drops every byte of its key and no byte of another, keeps the
/// counters, and has nothing left to drop the second time.
pub proof fn law_invalidation_is_key_scoped<Q>(
    content: CacheView<Q>,
    key: Q,
    other: Q,
    offset: int,
)
    requires
        content.wf(),
    ensures
        byte_at(content.after_invalidate(key).blocks, other, offset) == if other == key {
            None
        } else {
            byte_at(content.blocks, other, offset)
        },
        content.after_invalidate(key).stats == content.stats,
        content.after_invalidate(key).invalidation(key) == (Invalidation { ranges: 0, bytes: 0 }),
{
    lemma_invalidated_bytes(content.blocks, key);
    let rest = content.blocks.filter(not_owned_by(key));
    lemma_filter_members(content.blocks, not_owned_by(key));
    assert forall|i: int| 0 <= i < rest.len() implies !owned_by(key)(#[trigger] rest[i]) by {
        assert(rest.contains(rest[i]));
    }
    lemma_filter_extremes(rest, owned_by(key));
    assert(rest.filter(owned_by(key)) =~= Seq::empty());
}

/// Clearing drops every byte, keeps the counters, and has nothing left to drop
/// the second time.
pub proof fn law_clearing_keeps_statistics<Q>(content: CacheView<Q>, key: Q, offset: int)
    ensures
        byte_at(content.after_clear().blocks, key, offset) is None,
        content.after_clear().stats == content.stats,
        content.after_clear().clearance() == (Invalidation { ranges: 0, bytes: 0 }),
{
}

/// A snapshot shows at most as many resident bytes as the capacity allows, as
/// many ranges as keys at least, and as many bytes as ranges at least.
pub proof fn law_snapshot_is_consistent<Q>(content: CacheView<Q>, capacity: CacheCapacity)
    requires
        content.valid(capacity.limit()),
    ensures
        within(content.snapshot(capacity).resident_bytes as int, capacity.limit()),
        content.snapshot(capacity).keys <= content.snapshot(capacity).ranges,
        content.snapshot(capacity).ranges <= content.snapshot(capacity).resident_bytes,
{
    let blocks = content.blocks;
    lemma_total_least(blocks);
    if blocks.len() > 0 {
        lemma_keys_push(blocks.drop_last(), blocks.last());
        lemma_keys_push(blocks, blocks.last());
    } else {
        lemma_no_keys::<Q>();
        assert(blocks =~= Seq::empty());
    }
}

/// An insertion that fits under the ceiling next to all that is cached evicts
/// nothing: the bytes of its range are cached afterwards, and so is every byte
/// that was.
pub proof fn law_insert_that_fits_evicts_nothing<Q>(
    content: CacheView<Q>,
    limit: Option<nat>,
    key: Q,
    start: int,
    payload: Seq<u8>,
    other: Q,
    offset: int,
)
    requires
        content.wf(),
        0 <= start,
        start + payload.len() <= usize::MAX,
        within((total(content.blocks) + payload.len()) as int, limit),
    ensures
        !(content.insertion(limit, key, start, payload) is TooLarge),
        content.after_insert(limit, key, start, payload).stats.evictions
            == content.stats.evictions,
        byte_at(content.after_insert(limit, key, start, payload).blocks, other, offset) == if other
            == key && start <= offset < start + payload.len() && content.read(
            key,
            start,
            start + payload.len(),
        ) is None {
            Some(payload[offset - start])
        } else {
            byte_at(content.blocks, other, offset)
        },
{
    if content.read(key, start, start + payload.len()) is None {
        let grown = admitted(content.blocks, key, start, payload);
        lemma_admitted_total(content.blocks, key, start, payload);
        law_unbounded_insert(content, key, start, payload, other, offset);
        assert(grown.skip(0) =~= grown);
    }
}

/// What is read of a range holds what is read of each part of it.
pub proof fn law_parts_are_read_alike<Q>(
    content: CacheView<Q>,
    key: Q,
    start: int,
    end: int,
    first: int,
    last: int,
)
    requires
        start <= first <= last <= end,
        content.read(key, start, end) is Some,
    ensures
        content.read(key, first, last) == Some(
            content.read(key, start, end).unwrap().subrange(first - start, last - start),
        ),
{
    let whole = content.read(key, start, end).unwrap();
    assert forall|offset: int| first <= offset < last implies (#[trigger] byte_at(
        content.blocks,
        key,
        offset,
    )) is Some by {}
    assert(content.read(key, first, last).unwrap() =~= whole.subrange(first - start, last - start));
}

/// Every block holds a byte.
proof fn lemma_total_least<Q>(blocks: Seq<Block<Q>>)
    requires
        well_formed(blocks),
    ensures
        blocks.len() <= total(blocks),
    decreases blocks.len(),
{
    if blocks.len() > 0 {
        let init = blocks.drop_last();
        assert forall|i: int| 0 <= i < init.len() implies #[trigger] init[i] == blocks[i] by {}
        assert(well_formed(init));
        lemma_total_least(init);
        assert(blocks[blocks.len() - 1].in_domain());
    }
}

} // verus!
