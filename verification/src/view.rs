//! The mathematical content of a cache, and what each operation does to it.
//!
//! A cache is a sequence of blocks, the least recently used first, together
//! with its statistics.  A block is a run of bytes under one key.  Two blocks
//! of one key neither overlap nor touch, so the blocks are exactly the maximal
//! runs of resident bytes.

use crate::capacity::{CacheCapacity, CacheSnapshot, InsertOutcome, Invalidation};
use vstd::prelude::*;

verus! {

/// A run of cached bytes: `bytes[i]` is the byte at offset `start + i`.
pub struct Block<Q> {
    /// Key that the run belongs to.
    pub key: Q,
    /// Offset of the first byte.
    pub start: int,
    /// The bytes, in offset order.
    pub bytes: Seq<u8>,
}

impl<Q> Block<Q> {
    /// Offset just past the last byte.
    pub open spec fn end(self) -> int {
        self.start + self.bytes.len()
    }

    /// Holds bytes, all of them at offsets that a `usize` can bound.
    pub open spec fn in_domain(self) -> bool {
        0 <= self.start < self.end() <= usize::MAX
    }

    /// Holds the byte at `offset` under `key`.
    pub open spec fn holds(self, key: Q, offset: int) -> bool {
        self.key == key && self.start <= offset < self.end()
    }

    /// Shares a byte with `start..end` under `key`.
    pub open spec fn overlaps(self, key: Q, start: int, end: int) -> bool {
        self.key == key && start < end && self.start < end && start < self.end()
    }

    /// Overlaps or is adjacent to `start..end` under `key`.
    pub open spec fn touches(self, key: Q, start: int, end: int) -> bool {
        self.key == key && self.start <= end && start <= self.end()
    }

    /// Begins before `start` and reaches it.
    pub open spec fn joins_left(self, key: Q, start: int) -> bool {
        self.key == key && self.start < start <= self.end()
    }

    /// Ends after `end` and begins no later than it.
    pub open spec fn joins_right(self, key: Q, end: int) -> bool {
        self.key == key && self.start <= end < self.end()
    }
}

/// Counters that operations advance.  A counter that reaches the largest `u64`
/// stays there.
#[derive(Clone, Copy, Debug, PartialEq, Eq, Structural)]
pub struct Stats {
    /// Fully cached reads.
    pub hits: u64,
    /// Reads with some, but not all, requested bytes cached.
    pub partial_hits: u64,
    /// Reads with none of the requested bytes cached.
    pub misses: u64,
    /// Successfully admitted insertions.
    pub insertions: u64,
    /// Insertions rejected because the merged range was too large.
    pub rejections: u64,
    /// Ranges removed by capacity enforcement.
    pub evictions: u64,
}

/// `counter` advanced by `by`, held at the largest `u64`.
pub open spec fn advanced(counter: u64, by: nat) -> u64 {
    if counter + by <= u64::MAX {
        (counter + by) as u64
    } else {
        u64::MAX
    }
}

/// `count` as a `usize`, held at the largest `usize`.
pub open spec fn as_usize(count: nat) -> usize {
    if count <= usize::MAX {
        count as usize
    } else {
        usize::MAX
    }
}

/// No two blocks of one key overlap or touch.
pub open spec fn separated<Q>(blocks: Seq<Block<Q>>) -> bool {
    forall|i: int, j: int|
        #![trigger blocks[i], blocks[j]]
        0 <= i < j < blocks.len() && blocks[i].key == blocks[j].key ==> blocks[i].end()
            < blocks[j].start || blocks[j].end() < blocks[i].start
}

/// Blocks are non-empty, within the offset domain, and separated.
pub open spec fn well_formed<Q>(blocks: Seq<Block<Q>>) -> bool {
    &&& forall|i: int| 0 <= i < blocks.len() ==> (#[trigger] blocks[i]).in_domain()
    &&& separated(blocks)
}

/// Number of payload bytes in `blocks`.
pub open spec fn total<Q>(blocks: Seq<Block<Q>>) -> nat
    decreases blocks.len(),
{
    if blocks.len() == 0 {
        0
    } else {
        total(blocks.drop_last()) + blocks.last().bytes.len()
    }
}

/// The keys that own a block.
pub open spec fn keys<Q>(blocks: Seq<Block<Q>>) -> Set<Q> {
    blocks.map_values(|block: Block<Q>| block.key).to_set()
}

/// The byte cached at `offset` under `key`, if one is.
pub open spec fn byte_at<Q>(blocks: Seq<Block<Q>>, key: Q, offset: int) -> Option<u8> {
    if exists|i: int| 0 <= i < blocks.len() && (#[trigger] blocks[i]).holds(key, offset) {
        let i = choose|i: int| 0 <= i < blocks.len() && (#[trigger] blocks[i]).holds(key, offset);
        Some(blocks[i].bytes[offset - blocks[i].start])
    } else {
        None
    }
}

/// Every byte of `start..end` under `key` is cached.
pub open spec fn resident<Q>(blocks: Seq<Block<Q>>, key: Q, start: int, end: int) -> bool {
    forall|offset: int|
        start <= offset < end ==> (#[trigger] byte_at(blocks, key, offset)) is Some
}

/// No byte of `start..end` under `key` is cached.
pub open spec fn absent<Q>(blocks: Seq<Block<Q>>, key: Q, start: int, end: int) -> bool {
    forall|offset: int|
        start <= offset < end ==> (#[trigger] byte_at(blocks, key, offset)) is None
}

/// The cached bytes of `start..end` under `key`.
pub open spec fn content<Q>(blocks: Seq<Block<Q>>, key: Q, start: int, end: int) -> Seq<u8> {
    Seq::new(
        if start <= end {
            (end - start) as nat
        } else {
            0
        },
        |i: int| byte_at(blocks, key, start + i).unwrap(),
    )
}

/// Selects the blocks that share a byte with `start..end` under `key`.
pub open spec fn overlapping<Q>(key: Q, start: int, end: int) -> spec_fn(Block<Q>) -> bool {
    |block: Block<Q>| block.overlaps(key, start, end)
}

/// Selects the blocks that share no byte with `start..end` under `key`.
pub open spec fn not_overlapping<Q>(key: Q, start: int, end: int) -> spec_fn(Block<Q>) -> bool {
    |block: Block<Q>| !block.overlaps(key, start, end)
}

/// Selects the blocks that neither overlap nor are adjacent to `start..end`
/// under `key`.
pub open spec fn not_touching<Q>(key: Q, start: int, end: int) -> spec_fn(Block<Q>) -> bool {
    |block: Block<Q>| !block.touches(key, start, end)
}

/// Selects the blocks that overlap or are adjacent to `start..end` under
/// `key`.
pub open spec fn touching<Q>(key: Q, start: int, end: int) -> spec_fn(Block<Q>) -> bool {
    |block: Block<Q>| block.touches(key, start, end)
}

/// Selects the blocks of `key`.
pub open spec fn owned_by<Q>(key: Q) -> spec_fn(Block<Q>) -> bool {
    |block: Block<Q>| block.key == key
}

/// Selects the blocks of the other keys.
pub open spec fn not_owned_by<Q>(key: Q) -> spec_fn(Block<Q>) -> bool {
    |block: Block<Q>| block.key != key
}

/// `sorted`, in ascending order of start, with `block` put in its place.
pub open spec fn placed<Q>(sorted: Seq<Block<Q>>, block: Block<Q>) -> Seq<Block<Q>>
    decreases sorted.len(),
{
    if sorted.len() == 0 || sorted.last().start <= block.start {
        sorted.push(block)
    } else {
        placed(sorted.drop_last(), block).push(sorted.last())
    }
}

/// `blocks` in ascending order of start.
pub open spec fn by_start<Q>(blocks: Seq<Block<Q>>) -> Seq<Block<Q>>
    decreases blocks.len(),
{
    if blocks.len() == 0 {
        Seq::empty()
    } else {
        placed(by_start(blocks.drop_last()), blocks.last())
    }
}

/// `blocks` after a read of `start..end` under `key`: the blocks that the read
/// overlaps become the most recently used, one after the other in ascending
/// order of start.
pub open spec fn touched<Q>(blocks: Seq<Block<Q>>, key: Q, start: int, end: int) -> Seq<Block<Q>> {
    blocks.filter(not_overlapping(key, start, end)) + by_start(
        blocks.filter(overlapping(key, start, end)),
    )
}

/// Where the block begins that `start..` merges into: where the block begins
/// that reaches `start` from the left, or else `start`.
pub open spec fn merged_start<Q>(blocks: Seq<Block<Q>>, key: Q, start: int) -> int {
    if exists|i: int| 0 <= i < blocks.len() && (#[trigger] blocks[i]).joins_left(key, start) {
        let i = choose|i: int|
            0 <= i < blocks.len() && (#[trigger] blocks[i]).joins_left(key, start);
        blocks[i].start
    } else {
        start
    }
}

/// Where the block ends that `..end` merges into: where the block ends that
/// carries on from `end` to the right, or else `end`.
pub open spec fn merged_end<Q>(blocks: Seq<Block<Q>>, key: Q, end: int) -> int {
    if exists|i: int| 0 <= i < blocks.len() && (#[trigger] blocks[i]).joins_right(key, end) {
        let i = choose|i: int|
            0 <= i < blocks.len() && (#[trigger] blocks[i]).joins_right(key, end);
        blocks[i].end()
    } else {
        end
    }
}

/// The block that `payload` at `start` under `key` merges into: `payload` over
/// its own range, and the cached bytes to both sides of it.
pub open spec fn merged<Q>(blocks: Seq<Block<Q>>, key: Q, start: int, payload: Seq<u8>) -> Block<
    Q,
> {
    let end = start + payload.len();
    let first = merged_start(blocks, key, start);
    Block {
        key,
        start: first,
        bytes: Seq::new(
            (merged_end(blocks, key, end) - first) as nat,
            |i: int|
                if start <= first + i < end {
                    payload[first + i - start]
                } else {
                    byte_at(blocks, key, first + i).unwrap()
                },
        ),
    }
}

/// `blocks` with `payload` merged in as the most recently used block.
pub open spec fn admitted<Q>(blocks: Seq<Block<Q>>, key: Q, start: int, payload: Seq<u8>) -> Seq<
    Block<Q>,
> {
    blocks.filter(not_touching(key, start, start + payload.len())).push(
        merged(blocks, key, start, payload),
    )
}

/// How many of the least recently used blocks have to go so that the rest
/// holds at most `limit` bytes.
pub open spec fn surplus<Q>(blocks: Seq<Block<Q>>, limit: nat) -> nat
    decreases blocks.len(),
{
    if blocks.len() == 0 || total(blocks) <= limit {
        0
    } else {
        1 + surplus(blocks.drop_first(), limit)
    }
}

/// `len` bytes fit under `limit`.
pub open spec fn within(len: int, limit: Option<nat>) -> bool {
    limit matches Some(most) ==> len <= most
}

/// The offset lies in the range.
pub open spec fn in_range(range: core::ops::Range<usize>, offset: int) -> bool {
    range.start <= offset < range.end
}

/// `gaps` are the maximal runs of uncached offsets of `start..end` under
/// `key`, in ascending order.
pub open spec fn are_gaps<Q>(
    gaps: Seq<core::ops::Range<usize>>,
    blocks: Seq<Block<Q>>,
    key: Q,
    start: int,
    end: int,
) -> bool {
    &&& forall|i: int|
        0 <= i < gaps.len() ==> start <= (#[trigger] gaps[i]).start < gaps[i].end <= end
    &&& forall|i: int, j: int|
        #![trigger gaps[i], gaps[j]]
        0 <= i < j < gaps.len() ==> gaps[i].end < gaps[j].start
    &&& forall|offset: int|
        start <= offset < end ==> ((#[trigger] byte_at(blocks, key, offset)) is None <==> exists|
            i: int,
        |
            0 <= i < gaps.len() && in_range(#[trigger] gaps[i], offset))
}

/// The content of a cache.
pub struct CacheView<Q> {
    /// The cached blocks, the least recently used first.
    pub blocks: Seq<Block<Q>>,
    /// The counters.
    pub stats: Stats,
}

impl<Q> CacheView<Q> {
    /// Nothing cached and nothing counted.
    pub open spec fn empty() -> Self {
        CacheView {
            blocks: Seq::empty(),
            stats: Stats {
                hits: 0,
                partial_hits: 0,
                misses: 0,
                insertions: 0,
                rejections: 0,
                evictions: 0,
            },
        }
    }

    /// The blocks are non-empty and separated.
    pub open spec fn wf(self) -> bool {
        well_formed(self.blocks)
    }

    /// The resident bytes respect the ceiling.
    pub open spec fn fits(self, limit: Option<nat>) -> bool {
        within(total(self.blocks) as int, limit)
    }

    /// Well-formed and under the ceiling, as the content of a cache with that
    /// ceiling always is.
    pub open spec fn valid(self, limit: Option<nat>) -> bool {
        self.wf() && self.fits(limit)
    }

    /// What a read of `start..end` under `key` returns: the bytes if all of
    /// them are cached.
    pub open spec fn read(self, key: Q, start: int, end: int) -> Option<Seq<u8>> {
        if resident(self.blocks, key, start, end) {
            Some(content(self.blocks, key, start, end))
        } else {
            None
        }
    }

    /// The cache after a read of `start..end` under `key`: what it overlaps is
    /// the most recently used, and it counts as a hit, a partial hit or a miss.
    pub open spec fn after_read(self, key: Q, start: int, end: int) -> Self {
        CacheView {
            blocks: touched(self.blocks, key, start, end),
            stats: if resident(self.blocks, key, start, end) {
                Stats { hits: advanced(self.stats.hits, 1), ..self.stats }
            } else if absent(self.blocks, key, start, end) {
                Stats { misses: advanced(self.stats.misses, 1), ..self.stats }
            } else {
                Stats { partial_hits: advanced(self.stats.partial_hits, 1), ..self.stats }
            },
        }
    }

    /// What an insertion of `payload` at `start` under `key` reports.
    pub open spec fn insertion(
        self,
        limit: Option<nat>,
        key: Q,
        start: int,
        payload: Seq<u8>,
    ) -> InsertOutcome {
        if resident(self.blocks, key, start, start + payload.len()) {
            InsertOutcome::AlreadyCovered
        } else if !within(merged(self.blocks, key, start, payload).bytes.len() as int, limit) {
            InsertOutcome::TooLarge
        } else {
            InsertOutcome::Inserted
        }
    }

    /// The cache after the least recently used blocks made way until the rest
    /// respects the ceiling.
    pub open spec fn enforced(self, limit: Option<nat>) -> Self {
        match limit {
            Some(most) => {
                let count = surplus(self.blocks, most);
                CacheView {
                    blocks: self.blocks.skip(count as int),
                    stats: Stats { evictions: advanced(self.stats.evictions, count), ..self.stats },
                }
            },
            None => self,
        }
    }

    /// The cache after an insertion of `payload` at `start` under `key`.
    pub open spec fn after_insert(
        self,
        limit: Option<nat>,
        key: Q,
        start: int,
        payload: Seq<u8>,
    ) -> Self {
        match self.insertion(limit, key, start, payload) {
            InsertOutcome::AlreadyCovered => self,
            InsertOutcome::TooLarge => CacheView {
                stats: Stats { rejections: advanced(self.stats.rejections, 1), ..self.stats },
                ..self
            },
            InsertOutcome::Inserted => (CacheView {
                blocks: admitted(self.blocks, key, start, payload),
                stats: Stats { insertions: advanced(self.stats.insertions, 1), ..self.stats },
            }).enforced(limit),
        }
    }

    /// What an invalidation of `key` reports.
    pub open spec fn invalidation(self, key: Q) -> Invalidation {
        let gone = self.blocks.filter(owned_by(key));
        Invalidation { ranges: as_usize(gone.len()), bytes: as_usize(total(gone)) }
    }

    /// The cache after an invalidation of `key`.
    pub open spec fn after_invalidate(self, key: Q) -> Self {
        CacheView { blocks: self.blocks.filter(not_owned_by(key)), ..self }
    }

    /// What clearing the cache reports.
    pub open spec fn clearance(self) -> Invalidation {
        Invalidation { ranges: as_usize(self.blocks.len()), bytes: as_usize(total(self.blocks)) }
    }

    /// The cache after it was cleared: the counters stay.
    pub open spec fn after_clear(self) -> Self {
        CacheView { blocks: Seq::empty(), ..self }
    }

    /// The state and statistics of the cache.
    pub open spec fn snapshot(self, capacity: CacheCapacity) -> CacheSnapshot {
        CacheSnapshot {
            capacity,
            resident_bytes: as_usize(total(self.blocks)),
            keys: as_usize(keys(self.blocks).len()),
            ranges: as_usize(self.blocks.len()),
            hits: self.stats.hits,
            partial_hits: self.stats.partial_hits,
            misses: self.stats.misses,
            insertions: self.stats.insertions,
            admissions_rejected_too_large: self.stats.rejections,
            evictions: self.stats.evictions,
        }
    }
}

} // verus!
