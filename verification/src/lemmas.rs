//! Facts about block sequences that the proofs of the operations use.

use crate::view::{
    absent, admitted, are_gaps, by_start, byte_at, content, in_range, keys, merged, merged_end,
    merged_start, not_overlapping, not_owned_by, not_touching, overlapping, placed, resident,
    surplus, total, touched, touching, well_formed, Block,
};
use vstd::prelude::*;

verus! {

/// Blocks of one key that neither overlap nor touch, whatever their order.
pub open spec fn apart<Q>(left: Block<Q>, right: Block<Q>) -> bool {
    left.key == right.key ==> left.end() < right.start || right.end() < left.start
}

/// A block that holds an offset determines the byte there.
pub proof fn lemma_byte_at<Q>(blocks: Seq<Block<Q>>, i: int, key: Q, offset: int)
    requires
        well_formed(blocks),
        0 <= i < blocks.len(),
        blocks[i].holds(key, offset),
    ensures
        byte_at(blocks, key, offset) == Some(blocks[i].bytes[offset - blocks[i].start]),
{
    let j = choose|j: int| 0 <= j < blocks.len() && (#[trigger] blocks[j]).holds(key, offset);
    if i < j {
        assert(blocks[i].key == blocks[j].key);
    } else if j < i {
        assert(blocks[j].key == blocks[i].key);
    }
}

/// An offset that some block holds is one that has a byte.
pub proof fn lemma_holder<Q>(blocks: Seq<Block<Q>>, key: Q, offset: int) -> (i: int)
    requires
        byte_at(blocks, key, offset) is Some,
    ensures
        0 <= i < blocks.len(),
        blocks[i].holds(key, offset),
        byte_at(blocks, key, offset) == Some(blocks[i].bytes[offset - blocks[i].start]),
{
    choose|i: int| 0 <= i < blocks.len() && (#[trigger] blocks[i]).holds(key, offset)
}

/// A block that spans a range makes it resident, with the block's bytes.
pub proof fn lemma_spanned<Q>(blocks: Seq<Block<Q>>, i: int, key: Q, start: int, end: int)
    requires
        well_formed(blocks),
        0 <= i < blocks.len(),
        blocks[i].key == key,
        blocks[i].start <= start <= end <= blocks[i].end(),
    ensures
        resident(blocks, key, start, end),
        content(blocks, key, start, end) == blocks[i].bytes.subrange(
            start - blocks[i].start,
            end - blocks[i].start,
        ),
{
    assert forall|offset: int| start <= offset < end implies (#[trigger] byte_at(
        blocks,
        key,
        offset,
    )) == Some(blocks[i].bytes[offset - blocks[i].start]) by {
        lemma_byte_at(blocks, i, key, offset);
    }
    assert(content(blocks, key, start, end) =~= blocks[i].bytes.subrange(
        start - blocks[i].start,
        end - blocks[i].start,
    )) by {
        assert forall|j: int| 0 <= j < end - start implies content(blocks, key, start, end)[j]
            == blocks[i].bytes[start - blocks[i].start + j] by {
            assert(byte_at(blocks, key, start + j) is Some);
        }
    }
}

/// A non-empty range that is resident lies within a single block.
pub proof fn lemma_one_block<Q>(blocks: Seq<Block<Q>>, key: Q, start: int, end: int) -> (i: int)
    requires
        well_formed(blocks),
        resident(blocks, key, start, end),
        start < end,
    ensures
        0 <= i < blocks.len(),
        blocks[i].key == key,
        blocks[i].start <= start < end <= blocks[i].end(),
{
    assert(byte_at(blocks, key, start) is Some);
    let i = lemma_holder(blocks, key, start);
    if blocks[i].end() < end {
        let next = blocks[i].end();
        assert(byte_at(blocks, key, next) is Some);
        let j = lemma_holder(blocks, key, next);
        assert(i != j);
        if i < j {
            assert(blocks[i].key == blocks[j].key);
        } else {
            assert(blocks[j].key == blocks[i].key);
        }
    }
    i
}

/// What a filter keeps, by membership.
pub proof fn lemma_filter_members<Q>(blocks: Seq<Block<Q>>, keep: spec_fn(Block<Q>) -> bool)
    ensures
        forall|block: Block<Q>| #[trigger]
            blocks.filter(keep).contains(block) <==> blocks.contains(block) && keep(block),
{
    broadcast use {Seq::lemma_filter_pred, Seq::lemma_filter_contains, Seq::lemma_filter_contains_rev};
}

/// Members of a well-formed sequence, one by one and in pairs.
pub proof fn lemma_members_apart<Q>(blocks: Seq<Block<Q>>)
    requires
        well_formed(blocks),
    ensures
        forall|block: Block<Q>| #[trigger] blocks.contains(block) ==> block.in_domain(),
        forall|left: Block<Q>, right: Block<Q>| #[trigger]
            blocks.contains(left) && #[trigger] blocks.contains(right) && left != right ==> apart(
                left,
                right,
            ),
{
    assert forall|left: Block<Q>, right: Block<Q>| #[trigger]
        blocks.contains(left) && #[trigger] blocks.contains(right) && left != right implies apart(
        left,
        right,
    ) by {
        let i = choose|i: int| 0 <= i < blocks.len() && blocks[i] == left;
        let j = choose|j: int| 0 <= j < blocks.len() && blocks[j] == right;
        assert(i < j || j < i);
    }
}

/// A block that is apart from all others can be added at the end.
pub proof fn lemma_push_well_formed<Q>(blocks: Seq<Block<Q>>, block: Block<Q>)
    requires
        well_formed(blocks),
        block.in_domain(),
        forall|i: int| 0 <= i < blocks.len() ==> apart(#[trigger] blocks[i], block),
    ensures
        well_formed(blocks.push(block)),
{
    let all = blocks.push(block);
    assert forall|i: int, j: int| #![trigger all[i], all[j]]
        0 <= i < j < all.len() && all[i].key == all[j].key implies all[i].end() < all[j].start
        || all[j].end() < all[i].start by {
        if j == blocks.len() {
            assert(apart(blocks[i], block));
        } else {
            assert(blocks[i] == all[i] && blocks[j] == all[j]);
        }
    }
}

/// Filtering keeps blocks separated.
pub proof fn lemma_filter_well_formed<Q>(blocks: Seq<Block<Q>>, keep: spec_fn(Block<Q>) -> bool)
    requires
        well_formed(blocks),
    ensures
        well_formed(blocks.filter(keep)),
    decreases blocks.len(),
{
    reveal(Seq::filter);
    if blocks.len() > 0 {
        let init = blocks.drop_last();
        assert(well_formed(init));
        lemma_filter_well_formed(init, keep);
        if keep(blocks.last()) {
            let kept = init.filter(keep);
            lemma_filter_members(init, keep);
            assert forall|i: int| 0 <= i < kept.len() implies apart(
                #[trigger] kept[i],
                blocks.last(),
            ) by {
                assert(kept.contains(kept[i]));
                let j = choose|j: int| 0 <= j < init.len() && init[j] == kept[i];
                assert(blocks[j] == kept[i]);
            }
            lemma_push_well_formed(kept, blocks.last());
        }
    }
}

/// Bytes add up over a concatenation.
pub proof fn lemma_total_add<Q>(left: Seq<Block<Q>>, right: Seq<Block<Q>>)
    ensures
        total(left + right) == total(left) + total(right),
    decreases right.len(),
{
    if right.len() == 0 {
        assert(left + right =~= left);
    } else {
        assert((left + right).drop_last() =~= left + right.drop_last());
        lemma_total_add(left, right.drop_last());
    }
}

/// Bytes of a sequence with one more block.
pub proof fn lemma_total_push<Q>(blocks: Seq<Block<Q>>, block: Block<Q>)
    ensures
        total(blocks.push(block)) == total(blocks) + block.bytes.len(),
{
    assert(blocks.push(block).drop_last() =~= blocks);
}

/// A filter and its opposite share out the bytes.
pub proof fn lemma_total_filter<Q>(
    blocks: Seq<Block<Q>>,
    keep: spec_fn(Block<Q>) -> bool,
    drop: spec_fn(Block<Q>) -> bool,
)
    requires
        forall|block: Block<Q>| #[trigger] keep(block) == !drop(block),
    ensures
        total(blocks) == total(blocks.filter(keep)) + total(blocks.filter(drop)),
    decreases blocks.len(),
{
    reveal(Seq::filter);
    if blocks.len() > 0 {
        let init = blocks.drop_last();
        lemma_total_filter(init, keep, drop);
        lemma_total_push(init.filter(keep), blocks.last());
        lemma_total_push(init.filter(drop), blocks.last());
        assert(keep(blocks.last()) == !drop(blocks.last()));
    }
}

/// A block has at most as many bytes as a `usize` can count, and all blocks
/// together at most that many for each.
pub proof fn lemma_total_bounds<Q>(blocks: Seq<Block<Q>>)
    requires
        well_formed(blocks),
    ensures
        total(blocks) <= blocks.len() * usize::MAX,
    decreases blocks.len(),
{
    if blocks.len() > 0 {
        let init = blocks.drop_last();
        assert(well_formed(init));
        lemma_total_bounds(init);
        assert(blocks.last() == blocks[blocks.len() - 1]);
        assert(init.len() * usize::MAX + usize::MAX == blocks.len() * usize::MAX)
            by (nonlinear_arith)
            requires
                init.len() + 1 == blocks.len(),
        ;
    }
}

/// Putting a block in its place adds exactly that block.
pub proof fn lemma_placed<Q>(sorted: Seq<Block<Q>>, block: Block<Q>)
    ensures
        placed(sorted, block).len() == sorted.len() + 1,
        total(placed(sorted, block)) == total(sorted) + block.bytes.len(),
        forall|other: Block<Q>| #[trigger]
            placed(sorted, block).contains(other) <==> sorted.contains(other) || other == block,
    decreases sorted.len(),
{
    if sorted.len() == 0 || sorted.last().start <= block.start {
        lemma_total_push(sorted, block);
        let out = sorted.push(block);
        assert(out[sorted.len() as int] == block);
        assert forall|other: Block<Q>| #[trigger]
            out.contains(other) <==> sorted.contains(other) || other == block by {
            if sorted.contains(other) {
                let i = choose|i: int| 0 <= i < sorted.len() && sorted[i] == other;
                assert(out[i] == other);
            }
        }
    } else {
        let init = sorted.drop_last();
        lemma_placed(init, block);
        let inner = placed(init, block);
        let out = inner.push(sorted.last());
        lemma_total_push(inner, sorted.last());
        assert forall|other: Block<Q>| #[trigger]
            out.contains(other) <==> sorted.contains(other) || other == block by {
            if out.contains(other) {
                let i = choose|i: int| 0 <= i < out.len() && out[i] == other;
                if i < inner.len() {
                    assert(inner[i] == other);
                    assert(inner.contains(other));
                    if init.contains(other) {
                        let j = choose|j: int| 0 <= j < init.len() && init[j] == other;
                        assert(sorted[j] == other);
                    }
                } else {
                    assert(sorted[sorted.len() - 1] == other);
                }
            }
            if sorted.contains(other) || other == block {
                if other == sorted.last() {
                    assert(out[inner.len() as int] == other);
                } else {
                    if sorted.contains(other) {
                        let j = choose|j: int| 0 <= j < sorted.len() && sorted[j] == other;
                        assert(init[j] == other);
                    }
                    assert(inner.contains(other));
                    let i = choose|i: int| 0 <= i < inner.len() && inner[i] == other;
                    assert(out[i] == other);
                }
            }
        }
    }
}

/// Putting a block in its place keeps blocks separated.
pub proof fn lemma_placed_well_formed<Q>(sorted: Seq<Block<Q>>, block: Block<Q>)
    requires
        well_formed(sorted),
        block.in_domain(),
        forall|i: int| 0 <= i < sorted.len() ==> apart(#[trigger] sorted[i], block),
    ensures
        well_formed(placed(sorted, block)),
    decreases sorted.len(),
{
    if sorted.len() == 0 || sorted.last().start <= block.start {
        lemma_push_well_formed(sorted, block);
    } else {
        let init = sorted.drop_last();
        assert(well_formed(init));
        lemma_placed_well_formed(init, block);
        lemma_placed(init, block);
        let inner = placed(init, block);
        assert forall|i: int| 0 <= i < inner.len() implies apart(
            #[trigger] inner[i],
            sorted.last(),
        ) by {
            assert(inner.contains(inner[i]));
            if inner[i] == block {
                assert(apart(sorted[sorted.len() - 1], block));
            } else {
                let j = choose|j: int| 0 <= j < init.len() && init[j] == inner[i];
                assert(sorted[j] == inner[i]);
            }
        }
        lemma_push_well_formed(inner, sorted.last());
    }
}

/// Sorting by start keeps the blocks, their bytes and their separation.
pub proof fn lemma_by_start<Q>(blocks: Seq<Block<Q>>)
    ensures
        by_start(blocks).len() == blocks.len(),
        total(by_start(blocks)) == total(blocks),
        forall|block: Block<Q>| #[trigger]
            by_start(blocks).contains(block) <==> blocks.contains(block),
        well_formed(blocks) ==> well_formed(by_start(blocks)),
    decreases blocks.len(),
{
    if blocks.len() > 0 {
        let init = blocks.drop_last();
        let last = blocks.last();
        lemma_by_start(init);
        lemma_placed(by_start(init), last);
        assert forall|block: Block<Q>| #[trigger]
            by_start(blocks).contains(block) <==> blocks.contains(block) by {
            assert(by_start(blocks).contains(block) <==> by_start(init).contains(block) || block
                == last);
            if init.contains(block) {
                let j = choose|j: int| 0 <= j < init.len() && init[j] == block;
                assert(blocks[j] == block);
            }
            assert(blocks[blocks.len() - 1] == last);
            if blocks.contains(block) && block != last {
                let j = choose|j: int| 0 <= j < blocks.len() && blocks[j] == block;
                assert(init[j] == block);
            }
        }
        if well_formed(blocks) {
            assert(well_formed(init));
            let sorted = by_start(init);
            assert forall|i: int| 0 <= i < sorted.len() implies apart(#[trigger] sorted[i], last) by {
                assert(sorted.contains(sorted[i]));
                let j = choose|j: int| 0 <= j < init.len() && init[j] == sorted[i];
                assert(blocks[j] == sorted[i]);
            }
            lemma_placed_well_formed(sorted, last);
        }
    } else {
        assert(by_start(blocks) =~= blocks);
    }
}

/// Sequences with the same blocks cache the same bytes.
pub proof fn lemma_same_members<Q>(left: Seq<Block<Q>>, right: Seq<Block<Q>>)
    requires
        well_formed(left),
        well_formed(right),
        forall|block: Block<Q>| #[trigger] left.contains(block) <==> right.contains(block),
    ensures
        forall|key: Q, offset: int| #[trigger]
            byte_at(left, key, offset) == byte_at(right, key, offset),
{
    assert forall|key: Q, offset: int| #[trigger]
        byte_at(left, key, offset) == byte_at(right, key, offset) by {
        if byte_at(left, key, offset) is Some {
            let i = lemma_holder(left, key, offset);
            assert(left.contains(left[i]));
            let j = choose|j: int| 0 <= j < right.len() && right[j] == left[i];
            lemma_byte_at(right, j, key, offset);
        } else if byte_at(right, key, offset) is Some {
            let j = lemma_holder(right, key, offset);
            assert(right.contains(right[j]));
            assert(left.contains(right[j]));
            let i = choose|i: int| 0 <= i < left.len() && left[i] == right[j];
            lemma_byte_at(left, i, key, offset);
        }
    }
}

/// Two well-formed sequences that share no block form a well-formed whole if
/// their blocks are apart.
pub proof fn lemma_add_well_formed<Q>(left: Seq<Block<Q>>, right: Seq<Block<Q>>)
    requires
        well_formed(left),
        well_formed(right),
        forall|i: int, j: int|
            0 <= i < left.len() && 0 <= j < right.len() ==> apart(
                #[trigger] left[i],
                #[trigger] right[j],
            ),
    ensures
        well_formed(left + right),
{
    let all = left + right;
    assert forall|i: int| 0 <= i < all.len() implies (#[trigger] all[i]).in_domain() by {
        if i >= left.len() {
            assert(all[i] == right[i - left.len()]);
        } else {
            assert(all[i] == left[i]);
        }
    }
    assert forall|i: int, j: int| #![trigger all[i], all[j]]
        0 <= i < j < all.len() && all[i].key == all[j].key implies all[i].end() < all[j].start
        || all[j].end() < all[i].start by {
        if j < left.len() {
            assert(all[i] == left[i] && all[j] == left[j]);
        } else if i < left.len() {
            assert(apart(left[i], right[j - left.len()]));
        } else {
            assert(all[i] == right[i - left.len()] && all[j] == right[j - left.len()]);
        }
    }
}

/// A read reorders blocks and changes nothing else about them.
pub proof fn lemma_touched<Q>(blocks: Seq<Block<Q>>, key: Q, start: int, end: int)
    requires
        well_formed(blocks),
    ensures
        well_formed(touched(blocks, key, start, end)),
        total(touched(blocks, key, start, end)) == total(blocks),
        forall|block: Block<Q>| #[trigger]
            touched(blocks, key, start, end).contains(block) <==> blocks.contains(block),
        forall|other: Q, offset: int| #[trigger]
            byte_at(touched(blocks, key, start, end), other, offset) == byte_at(
                blocks,
                other,
                offset,
            ),
{
    let rest = blocks.filter(not_overlapping(key, start, end));
    let met = blocks.filter(overlapping(key, start, end));
    let moved = by_start(met);
    let all = touched(blocks, key, start, end);
    lemma_filter_members(blocks, not_overlapping(key, start, end));
    lemma_filter_members(blocks, overlapping(key, start, end));
    lemma_filter_well_formed(blocks, not_overlapping(key, start, end));
    lemma_filter_well_formed(blocks, overlapping(key, start, end));
    lemma_by_start(met);
    lemma_members_apart(blocks);
    assert forall|i: int, j: int| 0 <= i < rest.len() && 0 <= j < moved.len() implies apart(
        #[trigger] rest[i],
        #[trigger] moved[j],
    ) by {
        assert(rest.contains(rest[i]));
        assert(moved.contains(moved[j]));
        assert(met.contains(moved[j]));
        assert(rest[i] != moved[j]);
    }
    lemma_add_well_formed(rest, moved);
    lemma_total_add(rest, moved);
    lemma_total_filter(
        blocks,
        not_overlapping(key, start, end),
        overlapping(key, start, end),
    );
    assert forall|block: Block<Q>| #[trigger] all.contains(block) <==> blocks.contains(block) by {
        if all.contains(block) {
            let i = choose|i: int| 0 <= i < all.len() && all[i] == block;
            if i < rest.len() {
                assert(rest[i] == block);
                assert(rest.contains(block));
            } else {
                assert(moved[i - rest.len()] == block);
                assert(moved.contains(block));
                assert(met.contains(block));
            }
        }
        if blocks.contains(block) {
            if block.overlaps(key, start, end) {
                assert(met.contains(block));
                assert(moved.contains(block));
                let j = choose|j: int| 0 <= j < moved.len() && moved[j] == block;
                assert(all[rest.len() + j] == block);
            } else {
                assert(rest.contains(block));
                let i = choose|i: int| 0 <= i < rest.len() && rest[i] == block;
                assert(all[i] == block);
            }
        }
    }
    lemma_same_members(all, blocks);
}

/// At most one block reaches an offset from the left, and it is the one that
/// decides where a merged block begins.
pub proof fn lemma_merged_start<Q>(blocks: Seq<Block<Q>>, i: int, key: Q, start: int)
    requires
        well_formed(blocks),
        0 <= i < blocks.len(),
        blocks[i].joins_left(key, start),
    ensures
        merged_start(blocks, key, start) == blocks[i].start,
{
    let j = choose|j: int| 0 <= j < blocks.len() && (#[trigger] blocks[j]).joins_left(key, start);
    if i < j {
        assert(blocks[i].key == blocks[j].key);
    } else if j < i {
        assert(blocks[j].key == blocks[i].key);
    }
}

/// At most one block carries on from an offset to the right, and it is the one
/// that decides where a merged block ends.
pub proof fn lemma_merged_end<Q>(blocks: Seq<Block<Q>>, i: int, key: Q, end: int)
    requires
        well_formed(blocks),
        0 <= i < blocks.len(),
        blocks[i].joins_right(key, end),
    ensures
        merged_end(blocks, key, end) == blocks[i].end(),
{
    let j = choose|j: int| 0 <= j < blocks.len() && (#[trigger] blocks[j]).joins_right(key, end);
    if i < j {
        assert(blocks[i].key == blocks[j].key);
    } else if j < i {
        assert(blocks[j].key == blocks[i].key);
    }
}

/// The bytes to the left of a merged payload are those of one block.
pub proof fn lemma_left_side<Q>(blocks: Seq<Block<Q>>, key: Q, start: int)
    requires
        well_formed(blocks),
        0 <= start,
    ensures
        0 <= merged_start(blocks, key, start) <= start,
        resident(blocks, key, merged_start(blocks, key, start), start),
{
    if exists|i: int| 0 <= i < blocks.len() && (#[trigger] blocks[i]).joins_left(key, start) {
        let i = choose|i: int|
            0 <= i < blocks.len() && (#[trigger] blocks[i]).joins_left(key, start);
        lemma_spanned(blocks, i, key, blocks[i].start, start);
    }
}

/// The bytes to the right of a merged payload are those of one block.
pub proof fn lemma_right_side<Q>(blocks: Seq<Block<Q>>, key: Q, end: int)
    requires
        well_formed(blocks),
        end <= usize::MAX,
    ensures
        end <= merged_end(blocks, key, end) <= usize::MAX,
        resident(blocks, key, end, merged_end(blocks, key, end)),
{
    if exists|i: int| 0 <= i < blocks.len() && (#[trigger] blocks[i]).joins_right(key, end) {
        let i = choose|i: int|
            0 <= i < blocks.len() && (#[trigger] blocks[i]).joins_right(key, end);
        lemma_spanned(blocks, i, key, end, blocks[i].end());
    }
}

/// Admitting a payload keeps blocks separated.
pub proof fn lemma_admitted_well_formed<Q>(
    blocks: Seq<Block<Q>>,
    key: Q,
    start: int,
    payload: Seq<u8>,
)
    requires
        well_formed(blocks),
        0 <= start,
        0 < payload.len(),
        start + payload.len() <= usize::MAX,
    ensures
        well_formed(admitted(blocks, key, start, payload)),
{
    let end = start + payload.len();
    let kept = blocks.filter(not_touching(key, start, end));
    let block = merged(blocks, key, start, payload);
    lemma_filter_well_formed(blocks, not_touching(key, start, end));
    lemma_filter_members(blocks, not_touching(key, start, end));
    lemma_left_side(blocks, key, start);
    lemma_right_side(blocks, key, end);
    lemma_members_apart(blocks);
    assert forall|i: int| 0 <= i < kept.len() implies apart(#[trigger] kept[i], block) by {
        assert(kept.contains(kept[i]));
        assert(blocks.contains(kept[i]) && !kept[i].touches(key, start, end));
        if kept[i].key == key {
            if exists|j: int| 0 <= j < blocks.len() && (#[trigger] blocks[j]).joins_left(key, start)
            {
                let j = choose|j: int|
                    0 <= j < blocks.len() && (#[trigger] blocks[j]).joins_left(key, start);
                assert(blocks.contains(blocks[j]));
                assert(apart(kept[i], blocks[j]));
            }
            if exists|j: int| 0 <= j < blocks.len() && (#[trigger] blocks[j]).joins_right(key, end)
            {
                let j = choose|j: int|
                    0 <= j < blocks.len() && (#[trigger] blocks[j]).joins_right(key, end);
                assert(blocks.contains(blocks[j]));
                assert(apart(kept[i], blocks[j]));
            }
        }
    }
    lemma_push_well_formed(kept, block);
}

/// Admitting a payload changes the bytes of its own range and no other.
pub proof fn lemma_admitted_bytes<Q>(
    blocks: Seq<Block<Q>>,
    key: Q,
    start: int,
    payload: Seq<u8>,
)
    requires
        well_formed(blocks),
        0 <= start,
        0 < payload.len(),
        start + payload.len() <= usize::MAX,
    ensures
        forall|other: Q, offset: int| #[trigger]
            byte_at(admitted(blocks, key, start, payload), other, offset) == if other == key
                && start <= offset < start + payload.len() {
                Some(payload[offset - start])
            } else {
                byte_at(blocks, other, offset)
            },
{
    let end = start + payload.len();
    let kept = blocks.filter(not_touching(key, start, end));
    let block = merged(blocks, key, start, payload);
    let all = admitted(blocks, key, start, payload);
    let last = kept.len() as int;
    lemma_admitted_well_formed(blocks, key, start, payload);
    lemma_filter_members(blocks, not_touching(key, start, end));
    lemma_left_side(blocks, key, start);
    lemma_right_side(blocks, key, end);
    assert(all[last] == block);
    assert forall|other: Q, offset: int| #[trigger] byte_at(all, other, offset) == if other == key
        && start <= offset < end {
        Some(payload[offset - start])
    } else {
        byte_at(blocks, other, offset)
    } by {
        if block.holds(other, offset) {
            lemma_byte_at(all, last, other, offset);
            if !(start <= offset < end) {
                assert(byte_at(blocks, key, offset) is Some);
            }
        } else if byte_at(blocks, other, offset) is Some {
            let i = lemma_holder(blocks, other, offset);
            assert(blocks.contains(blocks[i]));
            if blocks[i].touches(key, start, end) {
                if blocks[i].start < start {
                    lemma_merged_start(blocks, i, key, start);
                }
                if blocks[i].end() > end {
                    lemma_merged_end(blocks, i, key, end);
                }
                assert(false);
            }
            assert(kept.contains(blocks[i]));
            let j = choose|j: int| 0 <= j < kept.len() && kept[j] == blocks[i];
            assert(all[j] == blocks[i]);
            lemma_byte_at(all, j, other, offset);
        } else if byte_at(all, other, offset) is Some {
            let j = lemma_holder(all, other, offset);
            if j < last {
                assert(kept[j] == all[j]);
                assert(kept.contains(kept[j]));
                let i = choose|i: int| 0 <= i < blocks.len() && blocks[i] == kept[j];
                lemma_byte_at(blocks, i, other, offset);
            }
            assert(false);
        }
    }
}

/// What is left after the surplus is gone fits, unless nothing is left to go.
pub proof fn lemma_surplus<Q>(blocks: Seq<Block<Q>>, limit: nat)
    ensures
        surplus(blocks, limit) <= blocks.len(),
        total(blocks.skip(surplus(blocks, limit) as int)) <= limit,
        forall|n: int|
            0 <= n < surplus(blocks, limit) ==> total(#[trigger] blocks.skip(n)) > limit,
    decreases blocks.len(),
{
    let count = surplus(blocks, limit);
    if blocks.len() == 0 || total(blocks) <= limit {
        assert(blocks.skip(0) =~= blocks);
    } else {
        let rest = blocks.drop_first();
        lemma_surplus(rest, limit);
        assert(blocks.skip(count as int) =~= rest.skip(count - 1));
        assert forall|n: int| 0 <= n < count implies total(#[trigger] blocks.skip(n)) > limit by {
            if n == 0 {
                assert(blocks.skip(0) =~= blocks);
            } else {
                assert(blocks.skip(n) =~= rest.skip(n - 1));
            }
        }
    }
}

/// Dropping blocks from the front keeps the rest separated.
pub proof fn lemma_skip_well_formed<Q>(blocks: Seq<Block<Q>>, count: int)
    requires
        well_formed(blocks),
        0 <= count <= blocks.len(),
    ensures
        well_formed(blocks.skip(count)),
{
    let rest = blocks.skip(count);
    assert forall|i: int| 0 <= i < rest.len() implies (#[trigger] rest[i]).in_domain() by {
        assert(rest[i] == blocks[count + i]);
    }
    assert forall|i: int, j: int| #![trigger rest[i], rest[j]]
        0 <= i < j < rest.len() && rest[i].key == rest[j].key implies rest[i].end() < rest[j].start
        || rest[j].end() < rest[i].start by {
        assert(rest[i] == blocks[count + i] && rest[j] == blocks[count + j]);
    }
}

/// A filter that rejects every block leaves nothing; one that accepts every
/// block leaves all.
pub proof fn lemma_filter_extremes<Q>(blocks: Seq<Block<Q>>, keep: spec_fn(Block<Q>) -> bool)
    ensures
        (forall|i: int| 0 <= i < blocks.len() ==> !keep(#[trigger] blocks[i])) <==> blocks.filter(
            keep,
        ).len() == 0,
        (forall|i: int| 0 <= i < blocks.len() ==> keep(#[trigger] blocks[i])) ==> blocks.filter(
            keep,
        ) == blocks,
    decreases blocks.len(),
{
    reveal(Seq::filter);
    if blocks.len() > 0 {
        let init = blocks.drop_last();
        lemma_filter_extremes(init, keep);
        assert(blocks.last() == blocks[blocks.len() - 1]);
        assert(forall|i: int| 0 <= i < init.len() ==> init[i] == blocks[i]);
        if blocks.filter(keep).len() == 0 {
            assert forall|i: int| 0 <= i < blocks.len() implies !keep(#[trigger] blocks[i]) by {
                if i < init.len() {
                    assert(init[i] == blocks[i]);
                }
            }
        }
        if forall|i: int| 0 <= i < blocks.len() ==> !keep(#[trigger] blocks[i]) {
            assert forall|i: int| 0 <= i < init.len() implies !keep(#[trigger] init[i]) by {
                assert(init[i] == blocks[i]);
            }
        }
        if forall|i: int| 0 <= i < blocks.len() ==> keep(#[trigger] blocks[i]) {
            assert forall|i: int| 0 <= i < init.len() implies keep(#[trigger] init[i]) by {
                assert(init[i] == blocks[i]);
            }
            assert(init.push(blocks.last()) =~= blocks);
        }
    }
}

/// Filters that agree on every block of a sequence leave the same blocks.
pub proof fn lemma_filter_agree<Q>(
    blocks: Seq<Block<Q>>,
    left: spec_fn(Block<Q>) -> bool,
    right: spec_fn(Block<Q>) -> bool,
)
    requires
        forall|i: int| 0 <= i < blocks.len() ==> left(#[trigger] blocks[i]) == right(blocks[i]),
    ensures
        blocks.filter(left) == blocks.filter(right),
    decreases blocks.len(),
{
    reveal(Seq::filter);
    if blocks.len() > 0 {
        let init = blocks.drop_last();
        assert(forall|i: int| 0 <= i < init.len() ==> init[i] == blocks[i]);
        lemma_filter_agree(init, left, right);
        assert(blocks.last() == blocks[blocks.len() - 1]);
    }
}

/// A range has no cached byte exactly if no block overlaps it.
pub proof fn lemma_absent<Q>(blocks: Seq<Block<Q>>, key: Q, start: int, end: int)
    requires
        well_formed(blocks),
    ensures
        absent(blocks, key, start, end) <==> blocks.filter(overlapping(key, start, end)).len() == 0,
{
    lemma_filter_extremes(blocks, overlapping(key, start, end));
    if absent(blocks, key, start, end) {
        assert forall|i: int| 0 <= i < blocks.len() implies !overlapping(key, start, end)(
            #[trigger] blocks[i],
        ) by {
            if blocks[i].overlaps(key, start, end) {
                let offset = if blocks[i].start <= start {
                    start
                } else {
                    blocks[i].start
                };
                lemma_byte_at(blocks, i, key, offset);
                assert(byte_at(blocks, key, offset) is None);
            }
        }
    }
    if blocks.filter(overlapping(key, start, end)).len() == 0 {
        assert forall|offset: int| start <= offset < end implies (#[trigger] byte_at(
            blocks,
            key,
            offset,
        )) is None by {
            if byte_at(blocks, key, offset) is Some {
                let i = lemma_holder(blocks, key, offset);
                assert(!overlapping(key, start, end)(blocks[i]));
            }
        }
    }
}

/// An empty read leaves the order of the blocks as it is.
pub proof fn lemma_untouched<Q>(blocks: Seq<Block<Q>>, key: Q, offset: int)
    ensures
        touched(blocks, key, offset, offset) == blocks,
{
    lemma_filter_extremes(blocks, overlapping(key, offset, offset));
    lemma_filter_extremes(blocks, not_overlapping(key, offset, offset));
    assert(blocks.filter(overlapping(key, offset, offset)) =~= Seq::empty());
    assert(touched(blocks, key, offset, offset) =~= blocks);
}

/// The number of keys grows with the first block of a key and only then.
pub proof fn lemma_keys_push<Q>(blocks: Seq<Block<Q>>, block: Block<Q>)
    ensures
        keys(blocks).finite(),
        keys(blocks).len() <= blocks.len(),
        keys(blocks.push(block)).len() == keys(blocks).len() + if exists|i: int|
            0 <= i < blocks.len() && (#[trigger] blocks[i]).key == block.key {
            0nat
        } else {
            1nat
        },
{
    let of = |block: Block<Q>| block.key;
    let names = blocks.map_values(of);
    assert(blocks.push(block).map_values(of) =~= names.push(block.key));
    names.lemma_push_to_set_commute(block.key);
    names.lemma_cardinality_of_set();
    vstd::seq_lib::seq_to_set_is_finite(names);
    if exists|i: int| 0 <= i < blocks.len() && (#[trigger] blocks[i]).key == block.key {
        let i = choose|i: int| 0 <= i < blocks.len() && (#[trigger] blocks[i]).key == block.key;
        assert(names[i] == block.key);
        assert(names.to_set().insert(block.key) =~= names.to_set());
    } else {
        if names.contains(block.key) {
            let i = choose|i: int| 0 <= i < names.len() && names[i] == block.key;
            assert(blocks[i].key == block.key);
        }
    }
}

/// No blocks, no keys.
pub proof fn lemma_no_keys<Q>()
    ensures
        keys(Seq::<Block<Q>>::empty()).len() == 0,
{
    assert(keys(Seq::<Block<Q>>::empty()) =~= Set::empty());
}

/// Gaps of a range stay the gaps when cached bytes are added on the right.
pub proof fn lemma_gaps_extended<Q>(
    gaps: Seq<core::ops::Range<usize>>,
    blocks: Seq<Block<Q>>,
    key: Q,
    start: int,
    end: int,
    further: int,
)
    requires
        are_gaps(gaps, blocks, key, start, end),
        resident(blocks, key, end, further),
        start <= end <= further,
    ensures
        are_gaps(gaps, blocks, key, start, further),
{
    assert forall|offset: int| start <= offset < further implies ((#[trigger] byte_at(
        blocks,
        key,
        offset,
    )) is None <==> exists|i: int| 0 <= i < gaps.len() && in_range(#[trigger] gaps[i], offset)) by {
        if offset >= end {
            assert(forall|i: int| 0 <= i < gaps.len() ==> !in_range(#[trigger] gaps[i], offset));
        }
    }
}

/// Gaps of a range and one more run of uncached bytes are the gaps of both, if
/// the last gap does not reach the run.
pub proof fn lemma_gaps_pushed<Q>(
    gaps: Seq<core::ops::Range<usize>>,
    gap: core::ops::Range<usize>,
    blocks: Seq<Block<Q>>,
    key: Q,
    start: int,
)
    requires
        are_gaps(gaps, blocks, key, start, gap.start as int),
        absent(blocks, key, gap.start as int, gap.end as int),
        start <= gap.start < gap.end,
        gaps.len() > 0 ==> gaps.last().end < gap.start,
    ensures
        are_gaps(gaps.push(gap), blocks, key, start, gap.end as int),
{
    let all = gaps.push(gap);
    let last = gaps.len() as int;
    assert(all[last] == gap);
    assert forall|i: int| 0 <= i < last implies #[trigger] all[i] == gaps[i] by {}
    assert forall|i: int, j: int| #![trigger all[i], all[j]] 0 <= i < j < all.len() implies all[i].end
        < all[j].start by {
        if j == last && i < last - 1 {
            assert(gaps[i].end < gaps[last - 1].start);
            assert(gaps[last - 1].start < gaps[last - 1].end);
        }
    }
    assert forall|offset: int| start <= offset < gap.end implies ((#[trigger] byte_at(
        blocks,
        key,
        offset,
    )) is None <==> exists|i: int| 0 <= i < all.len() && in_range(#[trigger] all[i], offset)) by {
        if offset >= gap.start {
            assert(in_range(all[last], offset));
        } else {
            if byte_at(blocks, key, offset) is None {
                let i = choose|i: int| 0 <= i < gaps.len() && in_range(#[trigger] gaps[i], offset);
                assert(in_range(all[i], offset));
            }
            if exists|i: int| 0 <= i < all.len() && in_range(#[trigger] all[i], offset) {
                let i = choose|i: int| 0 <= i < all.len() && in_range(#[trigger] all[i], offset);
                assert(i < last);
                assert(in_range(gaps[i], offset));
            }
        }
    }
}

/// No byte is cached right after the end of a block.
pub proof fn lemma_after_block<Q>(blocks: Seq<Block<Q>>, i: int)
    requires
        well_formed(blocks),
        0 <= i < blocks.len(),
    ensures
        byte_at(blocks, blocks[i].key, blocks[i].end()) is None,
{
    if byte_at(blocks, blocks[i].key, blocks[i].end()) is Some {
        let j = lemma_holder(blocks, blocks[i].key, blocks[i].end());
        assert(i < j || j < i);
    }
}

/// Dropping a block drops its bytes and no others.
pub proof fn lemma_removed_bytes<Q>(blocks: Seq<Block<Q>>, i: int)
    requires
        well_formed(blocks),
        0 <= i < blocks.len(),
    ensures
        well_formed(blocks.remove(i)),
        total(blocks.remove(i)) + blocks[i].bytes.len() == total(blocks),
        forall|key: Q, offset: int| #[trigger]
            byte_at(blocks.remove(i), key, offset) == if blocks[i].holds(key, offset) {
                None
            } else {
                byte_at(blocks, key, offset)
            },
{
    let rest = blocks.remove(i);
    assert forall|j: int| 0 <= j < rest.len() implies #[trigger] rest[j] == if j < i {
        blocks[j]
    } else {
        blocks[j + 1]
    } by {}
    assert forall|j: int, k: int| #![trigger rest[j], rest[k]]
        0 <= j < k < rest.len() && rest[j].key == rest[k].key implies rest[j].end() < rest[k].start
        || rest[k].end() < rest[j].start by {
        let left = if j < i {
            j
        } else {
            j + 1
        };
        let right = if k < i {
            k
        } else {
            k + 1
        };
        assert(rest[j] == blocks[left] && rest[k] == blocks[right]);
    }
    assert(well_formed(rest));
    assert forall|key: Q, offset: int| #[trigger] byte_at(rest, key, offset) == if blocks[i].holds(
        key,
        offset,
    ) {
        None
    } else {
        byte_at(blocks, key, offset)
    } by {
        if byte_at(rest, key, offset) is Some {
            let j = lemma_holder(rest, key, offset);
            let k = if j < i {
                j
            } else {
                j + 1
            };
            assert(rest[j] == blocks[k]);
            lemma_byte_at(blocks, k, key, offset);
            if blocks[i].holds(key, offset) {
                assert(blocks[i].key == blocks[k].key);
                assert(i < k || k < i);
            }
        } else if byte_at(blocks, key, offset) is Some {
            let k = lemma_holder(blocks, key, offset);
            if k != i {
                let j = if k < i {
                    k
                } else {
                    k - 1
                };
                assert(rest[j] == blocks[k]);
                lemma_byte_at(rest, j, key, offset);
            }
        }
    }
    let head = blocks.take(i);
    let tail = blocks.skip(i + 1);
    assert(blocks =~= head.push(blocks[i]) + tail);
    assert(rest =~= head + tail);
    lemma_total_add(head.push(blocks[i]), tail);
    lemma_total_add(head, tail);
    lemma_total_push(head, blocks[i]);
}

/// Dropping the blocks of a key drops its bytes and no others.
pub proof fn lemma_invalidated_bytes<Q>(blocks: Seq<Block<Q>>, key: Q)
    requires
        well_formed(blocks),
    ensures
        forall|other: Q, offset: int| #[trigger]
            byte_at(blocks.filter(not_owned_by(key)), other, offset) == if other == key {
                None
            } else {
                byte_at(blocks, other, offset)
            },
{
    let rest = blocks.filter(not_owned_by(key));
    lemma_filter_members(blocks, not_owned_by(key));
    lemma_filter_well_formed(blocks, not_owned_by(key));
    assert forall|other: Q, offset: int| #[trigger] byte_at(rest, other, offset) == if other == key {
        None
    } else {
        byte_at(blocks, other, offset)
    } by {
        if byte_at(rest, other, offset) is Some {
            let j = lemma_holder(rest, other, offset);
            assert(rest.contains(rest[j]));
            let k = choose|k: int| 0 <= k < blocks.len() && blocks[k] == rest[j];
            lemma_byte_at(blocks, k, other, offset);
        } else if other != key && byte_at(blocks, other, offset) is Some {
            let k = lemma_holder(blocks, other, offset);
            assert(blocks.contains(blocks[k]));
            assert(rest.contains(blocks[k]));
            let j = choose|j: int| 0 <= j < rest.len() && rest[j] == blocks[k];
            lemma_byte_at(rest, j, other, offset);
        }
    }
}

/// A filter and its opposite share out the blocks.
pub proof fn lemma_filter_lengths<Q>(
    blocks: Seq<Block<Q>>,
    keep: spec_fn(Block<Q>) -> bool,
    drop: spec_fn(Block<Q>) -> bool,
)
    requires
        forall|block: Block<Q>| #[trigger] keep(block) == !drop(block),
    ensures
        blocks.len() == blocks.filter(keep).len() + blocks.filter(drop).len(),
    decreases blocks.len(),
{
    reveal(Seq::filter);
    if blocks.len() > 0 {
        lemma_filter_lengths(blocks.drop_last(), keep, drop);
        assert(keep(blocks.last()) == !drop(blocks.last()));
    }
}

/// If one block alone passes a filter, that block is kept and the opposite
/// filter keeps the others.
pub proof fn lemma_filter_one<Q>(
    blocks: Seq<Block<Q>>,
    i: int,
    keep: spec_fn(Block<Q>) -> bool,
    drop: spec_fn(Block<Q>) -> bool,
)
    requires
        0 <= i < blocks.len(),
        forall|j: int| 0 <= j < blocks.len() ==> keep(#[trigger] blocks[j]) == (j == i),
        forall|block: Block<Q>| #[trigger] keep(block) == !drop(block),
    ensures
        blocks.filter(keep) == seq![blocks[i]],
        blocks.filter(drop) == blocks.remove(i),
    decreases blocks.len(),
{
    reveal(Seq::filter);
    let init = blocks.drop_last();
    let last = blocks.len() - 1;
    assert(forall|j: int| 0 <= j < init.len() ==> init[j] == blocks[j]);
    assert(blocks.last() == blocks[last]);
    assert(keep(blocks[last]) == !drop(blocks[last]));
    if i == last {
        assert forall|j: int| 0 <= j < init.len() implies !keep(#[trigger] init[j]) && drop(
            init[j],
        ) by {
            assert(keep(blocks[j]) == !drop(blocks[j]));
        }
        lemma_filter_extremes(init, keep);
        lemma_filter_extremes(init, drop);
        assert(blocks.filter(keep) =~= seq![blocks[i]]);
        assert(blocks.filter(drop) =~= blocks.remove(i));
    } else {
        lemma_filter_one(init, i, keep, drop);
        assert(blocks.filter(keep) =~= seq![blocks[i]]);
        assert(blocks.filter(drop) =~= blocks.remove(i));
    }
}

/// A read that lies within one block makes that block the most recently used.
pub proof fn lemma_touched_one<Q>(blocks: Seq<Block<Q>>, i: int, key: Q, start: int, end: int)
    requires
        well_formed(blocks),
        0 <= i < blocks.len(),
        blocks[i].key == key,
        blocks[i].start <= start < end <= blocks[i].end(),
    ensures
        touched(blocks, key, start, end) == blocks.remove(i).push(blocks[i]),
{
    assert forall|j: int| 0 <= j < blocks.len() implies overlapping(key, start, end)(
        #[trigger] blocks[j],
    ) == (j == i) by {
        if j != i && blocks[j].key == key {
            assert(j < i || i < j);
        }
    }
    lemma_filter_one(
        blocks,
        i,
        overlapping(key, start, end),
        not_overlapping(key, start, end),
    );
    let one = seq![blocks[i]];
    assert(one.drop_last() =~= Seq::empty());
    assert(by_start(one.drop_last()) =~= Seq::empty());
    assert(by_start(one) =~= one);
    assert(touched(blocks, key, start, end) =~= blocks.remove(i).push(blocks[i]));
}

/// No block occurs twice.
pub proof fn lemma_distinct<Q>(blocks: Seq<Block<Q>>)
    requires
        well_formed(blocks),
    ensures
        blocks.no_duplicates(),
{
    assert forall|i: int, j: int| 0 <= i < blocks.len() && 0 <= j < blocks.len() && i != j implies
        blocks[i] != blocks[j] by {
        assert(i < j || j < i);
        assert(blocks[i].in_domain());
    }
}

/// Dropping one kept block from a filtered sequence is the same as filtering it
/// out.
pub proof fn lemma_filter_less<Q>(
    blocks: Seq<Block<Q>>,
    i: int,
    keep: spec_fn(Block<Q>) -> bool,
    less: spec_fn(Block<Q>) -> bool,
)
    requires
        blocks.no_duplicates(),
        0 <= i < blocks.filter(keep).len(),
        forall|block: Block<Q>| #[trigger] less(block) == (keep(block) && block != blocks.filter(
            keep,
        )[i]),
    ensures
        blocks.filter(less) == blocks.filter(keep).remove(i),
    decreases blocks.len(),
{
    reveal(Seq::filter);
    if blocks.len() > 0 {
        let init = blocks.drop_last();
        let last = blocks.last();
        let kept = blocks.filter(keep);
        let init_kept = init.filter(keep);
        assert(init.no_duplicates());
        lemma_filter_members(init, keep);
        assert(less(last) == (keep(last) && last != kept[i]));
        if i < init_kept.len() {
            assert(kept[i] == init_kept[i]);
            lemma_filter_less(init, i, keep, less);
            assert(init_kept.contains(init_kept[i]));
            let j = choose|j: int| 0 <= j < init.len() && init[j] == init_kept[i];
            assert(blocks[j] != blocks[blocks.len() - 1]);
            assert(blocks.filter(less) =~= kept.remove(i));
        } else {
            assert(kept[i] == last);
            assert forall|j: int| 0 <= j < init.len() implies less(#[trigger] init[j]) == keep(
                init[j],
            ) by {
                assert(blocks[j] != blocks[blocks.len() - 1]);
                assert(less(blocks[j]) == (keep(blocks[j]) && blocks[j] != kept[i]));
            }
            lemma_filter_agree(init, less, keep);
            assert(blocks.filter(less) =~= kept.remove(i));
        }
    }
}

/// The blocks that are not in `moved`.
pub open spec fn not_among<Q>(moved: Seq<Block<Q>>) -> spec_fn(Block<Q>) -> bool {
    |block: Block<Q>| !moved.contains(block)
}

/// The sequence on the way from `blocks` to `touched(blocks, ..)` in which the
/// first `count` overlapping blocks, in ascending order of start, have been
/// moved to the end.
pub open spec fn partly_touched<Q>(
    blocks: Seq<Block<Q>>,
    key: Q,
    start: int,
    end: int,
    count: int,
) -> Seq<Block<Q>> {
    let sorted = by_start(blocks.filter(overlapping(key, start, end)));
    blocks.filter(not_among(sorted.take(count))) + sorted.take(count)
}

/// At first nothing has been moved.
pub proof fn lemma_partly_touched_first<Q>(blocks: Seq<Block<Q>>, key: Q, start: int, end: int)
    ensures
        partly_touched(blocks, key, start, end, 0) == blocks,
{
    let sorted = by_start(blocks.filter(overlapping(key, start, end)));
    assert(sorted.take(0) =~= Seq::empty());
    lemma_filter_extremes(blocks, not_among(sorted.take(0)));
    assert(partly_touched(blocks, key, start, end, 0) =~= blocks);
}

/// In the end all overlapping blocks have been moved.
pub proof fn lemma_partly_touched_last<Q>(blocks: Seq<Block<Q>>, key: Q, start: int, end: int)
    ensures
        partly_touched(
            blocks,
            key,
            start,
            end,
            by_start(blocks.filter(overlapping(key, start, end))).len() as int,
        ) == touched(blocks, key, start, end),
{
    let met = blocks.filter(overlapping(key, start, end));
    let sorted = by_start(met);
    assert(sorted.take(sorted.len() as int) =~= sorted);
    lemma_by_start(met);
    lemma_filter_members(blocks, overlapping(key, start, end));
    assert forall|i: int| 0 <= i < blocks.len() implies not_among(sorted)(#[trigger] blocks[i])
        == not_overlapping(key, start, end)(blocks[i]) by {
        assert(blocks.contains(blocks[i]));
        assert(met.contains(blocks[i]) == overlapping(key, start, end)(blocks[i]));
        assert(sorted.contains(blocks[i]) == met.contains(blocks[i]));
    }
    lemma_filter_agree(blocks, not_among(sorted), not_overlapping(key, start, end));
}

/// Moving the next overlapping block to the end.
pub proof fn lemma_partly_touched_step<Q>(
    blocks: Seq<Block<Q>>,
    key: Q,
    start: int,
    end: int,
    count: int,
    i: int,
)
    requires
        well_formed(blocks),
        0 <= count < by_start(blocks.filter(overlapping(key, start, end))).len(),
        0 <= i < partly_touched(blocks, key, start, end, count).len(),
        partly_touched(blocks, key, start, end, count)[i] == by_start(
            blocks.filter(overlapping(key, start, end)),
        )[count],
    ensures
        partly_touched(blocks, key, start, end, count + 1) == partly_touched(
            blocks,
            key,
            start,
            end,
            count,
        ).remove(i).push(by_start(blocks.filter(overlapping(key, start, end)))[count]),
{
    let met = blocks.filter(overlapping(key, start, end));
    let sorted = by_start(met);
    let now = partly_touched(blocks, key, start, end, count);
    let next = sorted[count];
    let head = sorted.take(count);
    let rest = blocks.filter(not_among(head));
    lemma_filter_well_formed(blocks, overlapping(key, start, end));
    lemma_by_start(met);
    lemma_distinct(sorted);
    lemma_distinct(blocks);
    if i >= rest.len() {
        assert(now[i] == head[i - rest.len()]);
        assert(sorted[i - rest.len()] == sorted[count]);
    }
    assert(rest[i] == next);
    let longer = sorted.take(count + 1);
    assert forall|block: Block<Q>| #[trigger] not_among(longer)(block) == (not_among(head)(block)
        && block != rest[i]) by {
        if head.contains(block) {
            let j = choose|j: int| 0 <= j < head.len() && head[j] == block;
            assert(longer[j] == block);
        }
        assert(longer[count] == next);
        if longer.contains(block) && block != next {
            let j = choose|j: int| 0 <= j < longer.len() && longer[j] == block;
            assert(head[j] == block);
        }
    }
    lemma_filter_less(blocks, i, not_among(head), not_among(longer));
    assert(longer =~= head.push(next));
    assert(now.remove(i).push(next) =~= rest.remove(i) + longer);
}

/// A block that passes a filter has no more bytes than all that pass.
pub proof fn lemma_total_one<Q>(blocks: Seq<Block<Q>>, keep: spec_fn(Block<Q>) -> bool, i: int)
    requires
        0 <= i < blocks.len(),
        keep(blocks[i]),
    ensures
        blocks[i].bytes.len() <= total(blocks.filter(keep)),
    decreases blocks.len(),
{
    reveal(Seq::filter);
    let init = blocks.drop_last();
    lemma_total_push(init.filter(keep), blocks.last());
    if i < init.len() {
        assert(init[i] == blocks[i]);
        lemma_total_one(init, keep, i);
    }
}

/// Two blocks that pass a filter have no more bytes than all that pass.
pub proof fn lemma_total_two<Q>(
    blocks: Seq<Block<Q>>,
    keep: spec_fn(Block<Q>) -> bool,
    i: int,
    j: int,
)
    requires
        0 <= i < j < blocks.len(),
        keep(blocks[i]),
        keep(blocks[j]),
    ensures
        blocks[i].bytes.len() + blocks[j].bytes.len() <= total(blocks.filter(keep)),
    decreases blocks.len(),
{
    reveal(Seq::filter);
    let init = blocks.drop_last();
    lemma_total_push(init.filter(keep), blocks.last());
    assert(init[i] == blocks[i]);
    if j < init.len() {
        assert(init[j] == blocks[j]);
        lemma_total_two(init, keep, i, j);
    } else {
        lemma_total_one(init, keep, i);
    }
}

/// Admitting a payload adds at most its own bytes to what is cached.
pub proof fn lemma_admitted_total<Q>(
    blocks: Seq<Block<Q>>,
    key: Q,
    start: int,
    payload: Seq<u8>,
)
    requires
        well_formed(blocks),
        0 <= start,
        start + payload.len() <= usize::MAX,
        !resident(blocks, key, start, start + payload.len()),
    ensures
        total(admitted(blocks, key, start, payload)) <= total(blocks) + payload.len(),
        merged(blocks, key, start, payload).bytes.len() <= total(blocks) + payload.len(),
{
    let end = start + payload.len();
    let touch = touching(key, start, end);
    let block = merged(blocks, key, start, payload);
    lemma_left_side(blocks, key, start);
    lemma_right_side(blocks, key, end);
    lemma_total_filter(blocks, not_touching(key, start, end), touch);
    lemma_total_push(blocks.filter(not_touching(key, start, end)), block);
    let left = exists|i: int| 0 <= i < blocks.len() && (#[trigger] blocks[i]).joins_left(key, start);
    let right = exists|j: int| 0 <= j < blocks.len() && (#[trigger] blocks[j]).joins_right(key, end);
    if left {
        let i = choose|i: int| 0 <= i < blocks.len() && (#[trigger] blocks[i]).joins_left(key, start);
        assert(touch(blocks[i]));
        lemma_total_one(blocks, touch, i);
        if right {
            let j = choose|j: int|
                0 <= j < blocks.len() && (#[trigger] blocks[j]).joins_right(key, end);
            assert(touch(blocks[j]));
            if i == j {
                lemma_spanned(blocks, i, key, start, end);
            } else if i < j {
                lemma_total_two(blocks, touch, i, j);
            } else {
                lemma_total_two(blocks, touch, j, i);
            }
        }
    } else if right {
        let j = choose|j: int| 0 <= j < blocks.len() && (#[trigger] blocks[j]).joins_right(key, end);
        assert(touch(blocks[j]));
        lemma_total_one(blocks, touch, j);
    }
}

} // verus!
