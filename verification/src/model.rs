//! A dense reference model of the cache.
//!
//! The model keeps a cell for every offset of a small domain under a handful of
//! keys, and the cached ranges in the order of their last use.  It shares no
//! code with [`crate::store::RangeStore`] and has the same contracts, with
//! offsets counted from a base.

use crate::capacity::{CacheCapacity, CacheSnapshot, InsertOutcome, Invalidation};
use crate::effect::{clears, inserts, invalidates, lists_gaps, reports};
use crate::error::{range_fault, RangeError};
use crate::laws::law_empty_read;
use crate::lemmas::{
    lemma_absent, lemma_admitted_bytes, lemma_admitted_well_formed, lemma_by_start, lemma_byte_at,
    lemma_distinct, lemma_filter_extremes, lemma_filter_lengths, lemma_filter_members,
    lemma_filter_well_formed, lemma_gaps_extended, lemma_gaps_pushed, lemma_invalidated_bytes,
    lemma_merged_end, lemma_merged_start, lemma_one_block, lemma_partly_touched_first,
    lemma_partly_touched_last, lemma_partly_touched_step, lemma_removed_bytes, lemma_spanned,
    lemma_total_push, lemma_touched, lemma_touched_one, not_among, partly_touched,
};
use crate::view::{
    absent, admitted, advanced, are_gaps, by_start, byte_at, content, keys, merged, merged_end,
    merged_start, not_owned_by, not_touching, overlapping, owned_by, placed, resident, surplus,
    total, touched, well_formed, Block, CacheView, Stats,
};
use std::ops::Range;
use vstd::prelude::*;

verus! {

/// Number of offsets that a model covers.
pub const DOMAIN: usize = 32;

/// Number of keys that a model covers.
pub const KEY_COUNT: usize = 4;

/// A cached range, as offsets from the base.
#[derive(Clone, Copy)]
struct ModelRange {
    key: usize,
    start: usize,
    end: usize,
}

/// What is cached at each offset of each key.
type Cells = Seq<Seq<Option<u8>>>;

/// The cells of a list of rows.
spec fn cells_of(rows: Seq<Vec<Option<u8>>>) -> Cells {
    Seq::new(rows.len(), |key: int| rows[key]@)
}

/// The block that a range stands for.
spec fn block_of(cells: Cells, base: int, range: ModelRange) -> Block<usize> {
    Block {
        key: range.key,
        start: base + range.start,
        bytes: Seq::new(
            (range.end - range.start) as nat,
            |i: int| cells[range.key as int][range.start + i].unwrap(),
        ),
    }
}

/// The blocks that a list of ranges stands for.
spec fn blocks_of(cells: Cells, base: int, ranges: Seq<ModelRange>) -> Seq<Block<usize>> {
    ranges.map_values(|range: ModelRange| block_of(cells, base, range))
}

/// There is a cell for every offset of every key.
spec fn shaped(cells: Cells) -> bool {
    &&& cells.len() == KEY_COUNT
    &&& forall|key: int| 0 <= key < KEY_COUNT ==> (#[trigger] cells[key]).len() == DOMAIN
}

/// The range has offsets and is within the cells.
spec fn ranged(range: ModelRange) -> bool {
    range.key < KEY_COUNT && range.start < range.end <= DOMAIN
}

/// The cells hold exactly what the blocks hold.
#[verifier::opaque]
spec fn dense(cells: Cells, base: int, blocks: Seq<Block<usize>>) -> bool {
    forall|key: usize, offset: int|
        key < KEY_COUNT && 0 <= offset < DOMAIN ==> #[trigger] cells[key as int][offset] == byte_at(
            blocks,
            key,
            base + offset,
        )
}

/// What a cell holds.
proof fn lemma_cell(cells: Cells, base: int, blocks: Seq<Block<usize>>, key: usize, offset: int)
    requires
        dense(cells, base, blocks),
        key < KEY_COUNT,
        0 <= offset < DOMAIN,
    ensures
        cells[key as int][offset] == byte_at(blocks, key, base + offset),
{
    reveal(dense);
}

/// The ranges are within the cells, neither overlap nor touch, and cover
/// exactly the cells that hold a byte.
spec fn sound(cells: Cells, base: int, ranges: Seq<ModelRange>) -> bool {
    &&& shaped(cells)
    &&& 0 <= base <= usize::MAX
    &&& forall|i: int| 0 <= i < ranges.len() ==> ranged(#[trigger] ranges[i])
    &&& well_formed(blocks_of(cells, base, ranges))
    &&& dense(cells, base, blocks_of(cells, base, ranges))
}

/// Number of cells in a row that hold a byte.
spec fn row_total(row: Seq<Option<u8>>) -> nat
    decreases row.len(),
{
    if row.len() == 0 {
        0
    } else {
        row_total(row.drop_last()) + if row.last() is Some {
            1nat
        } else {
            0nat
        }
    }
}

/// Number of cells that hold a byte.
spec fn cell_total(cells: Cells) -> nat
    decreases cells.len(),
{
    if cells.len() == 0 {
        0
    } else {
        cell_total(cells.drop_last()) + row_total(cells.last())
    }
}

/// A row with the cells of `start..end` emptied.
spec fn emptied(row: Seq<Option<u8>>, start: int, end: int) -> Seq<Option<u8>> {
    Seq::new(
        row.len(),
        |offset: int|
            if start <= offset < end {
                None
            } else {
                row[offset]
            },
    )
}

/// The absolute range of `start..end`.
pub open spec fn located(base: usize, start: usize, end: usize) -> Range<usize> {
    Range { start: (base + start) as usize, end: (base + end) as usize }
}

/// A reference model of a cache.
pub struct Model {
    base: usize,
    capacity: CacheCapacity,
    bytes: Vec<Vec<Option<u8>>>,
    ranges: Vec<ModelRange>,
    stats: Stats,
}

impl View for Model {
    type V = CacheView<usize>;

    closed spec fn view(&self) -> CacheView<usize> {
        CacheView {
            blocks: blocks_of(cells_of(self.bytes@), self.base as int, self.ranges@),
            stats: self.stats,
        }
    }
}

impl Model {
    /// Offset that the offsets of the model count from.
    pub closed spec fn origin(self) -> usize {
        self.base
    }

    /// The capacity policy.
    pub closed spec fn policy(self) -> CacheCapacity {
        self.capacity
    }

    /// The offset is one that a `usize` can express after the base is added.
    pub open spec fn reaches(self, offset: usize) -> bool {
        self.origin() + offset <= usize::MAX
    }

    /// The cells and the list of ranges agree.
    pub closed spec fn wf(self) -> bool {
        sound(cells_of(self.bytes@), self.base as int, self.ranges@)
    }

    /// Creates an empty model of the offsets from `base` on.
    pub fn new(base: usize, capacity: CacheCapacity) -> (model: Self)
        ensures
            model.wf(),
            model.origin() == base,
            model.policy() == capacity,
            model@ == CacheView::<usize>::empty(),
    {
        let mut bytes: Vec<Vec<Option<u8>>> = Vec::new();
        let mut key: usize = 0;
        while key < KEY_COUNT
            invariant
                key <= KEY_COUNT,
                bytes@.len() == key,
                forall|k: int| 0 <= k < key ==> (#[trigger] bytes@[k])@.len() == DOMAIN,
                forall|k: int, o: int|
                    0 <= k < key && 0 <= o < DOMAIN ==> (#[trigger] bytes@[k]@[o]) is None,
            decreases KEY_COUNT - key,
        {
            bytes.push(empty_row());
            key = key + 1;
        }
        let model = Self {
            base,
            capacity,
            bytes,
            ranges: Vec::new(),
            stats: Stats {
                hits: 0,
                partial_hits: 0,
                misses: 0,
                insertions: 0,
                rejections: 0,
                evictions: 0,
            },
        };
        assert(model@.blocks =~= Seq::empty());
        assert(dense(cells_of(model.bytes@), base as int, model@.blocks)) by {
            reveal(dense);
        }
        model
    }

    /// Adds the base to an offset.
    pub fn absolute(&self, offset: usize) -> (position: usize)
        requires
            self.reaches(offset),
        ensures
            position == self.origin() + offset,
    {
        self.base + offset
    }

    /// Returns the error for a reversed range.
    pub fn range_error(&self, start: usize, end: usize) -> (error: RangeError)
        requires
            self.reaches(start),
            self.reaches(end),
        ensures
            error == (RangeError::ReversedRange {
                start: (self.origin() + start) as usize,
                end: (self.origin() + end) as usize,
            }),
    {
        RangeError::ReversedRange { start: self.absolute(start), end: self.absolute(end) }
    }

    /// Lists the parts of `start..end` that are not cached under `key`.
    pub fn missing(&self, key: usize, start: usize, end: usize) -> (found: Result<
        Vec<Range<usize>>,
        RangeError,
    >)
        requires
            self.wf(),
            start != end ==> self.reaches(start) && self.reaches(end),
            start < end ==> key < KEY_COUNT && end <= DOMAIN,
        ensures
            lists_gaps(self@, key, located(self.origin(), start, end), found),
    {
        if start > end {
            return Err(self.range_error(start, end));
        }
        let ghost blocks = self@.blocks;
        let ghost base = self.base as int;
        let mut missing: Vec<Range<usize>> = Vec::new();
        let mut cursor: usize = start;
        while cursor < end
            invariant
                self.wf(),
                blocks == self@.blocks,
                base == self.base,
                start <= cursor <= end,
                start < end ==> self.reaches(end),
                start < end ==> key < KEY_COUNT && end <= DOMAIN,
                are_gaps(missing@, blocks, key, base + start, base + cursor),
                missing@.len() > 0 && missing@.last().end == base + cursor && cursor < end
                    ==> byte_at(blocks, key, base + cursor) is Some,
            decreases end - cursor,
        {
            let ghost before = missing@;
            proof {
                lemma_cell(cells_of(self.bytes@), base, blocks, key, cursor as int);
            }
            if self.bytes[key][cursor].is_some() {
                proof {
                    assert forall|offset: int|
                        base + cursor <= offset < base + cursor + 1 implies (#[trigger] byte_at(
                        blocks,
                        key,
                        offset,
                    )) is Some by {}
                    lemma_gaps_extended(
                        before,
                        blocks,
                        key,
                        base + start,
                        base + cursor,
                        base + cursor + 1,
                    );
                }
                cursor = cursor + 1;
                continue;
            }
            let gap_start: usize = cursor;
            while cursor < end && self.bytes[key][cursor].is_none()
                invariant
                    self.wf(),
                    blocks == self@.blocks,
                    base == self.base,
                    key < self.bytes@.len() == KEY_COUNT,
                    self.bytes@[key as int]@.len() == DOMAIN,
                    gap_start <= cursor <= end <= DOMAIN,
                    absent(blocks, key, base + gap_start, base + cursor),
                decreases end - cursor,
            {
                proof {
                    lemma_cell(cells_of(self.bytes@), base, blocks, key, cursor as int);
                }
                cursor = cursor + 1;
            }
            proof {
                if cursor < end {
                    lemma_cell(cells_of(self.bytes@), base, blocks, key, cursor as int);
                }
            }
            let gap = self.absolute(gap_start)..self.absolute(cursor);
            proof {
                lemma_gaps_pushed(before, gap, blocks, key, base + start);
            }
            missing.push(gap);
        }
        Ok(missing)
    }

    /// Finds the range that spans `start..end` under `key`.
    fn containing(&self, key: usize, start: usize, end: usize) -> (found: Option<usize>)
        requires
            self.wf(),
            start < end,
        ensures
            found matches Some(i) ==> {
                &&& i < self.ranges@.len()
                &&& self.ranges@[i as int].key == key
                &&& self.ranges@[i as int].start <= start < end <= self.ranges@[i as int].end
            },
            found is Some <==> resident(
                self@.blocks,
                key,
                self.origin() + start,
                self.origin() + end,
            ),
    {
        let ghost blocks = self@.blocks;
        let ghost base = self.base as int;
        let ghost cells = cells_of(self.bytes@);
        let mut i: usize = 0;
        while i < self.ranges.len()
            invariant
                self.wf(),
                blocks == self@.blocks,
                base == self.base,
                cells == cells_of(self.bytes@),
                start < end,
                i <= self.ranges@.len(),
                forall|j: int|
                    0 <= j < i ==> !((#[trigger] self.ranges@[j]).key == key && self.ranges@[j].start
                        <= start && end <= self.ranges@[j].end),
            decreases self.ranges.len() - i,
        {
            let range = self.ranges[i];
            if range.key == key && range.start <= start && end <= range.end {
                proof {
                    assert(ranged(range));
                    assert(blocks[i as int] == block_of(cells, base, range));
                    lemma_spanned(blocks, i as int, key, base + start, base + end);
                }
                return Some(i);
            }
            i = i + 1;
        }
        proof {
            if resident(blocks, key, base + start, base + end) {
                let j = lemma_one_block(blocks, key, base + start, base + end);
                assert(blocks[j] == block_of(cells, base, self.ranges@[j]));
                assert(ranged(self.ranges@[j]));
            }
        }
        None
    }

    /// Makes the range that begins at `start` under `key` the most recently
    /// used.
    pub fn touch(&mut self, key: usize, start: usize)
        requires
            old(self).wf(),
            exists|i: int|
                0 <= i < old(self)@.blocks.len() && begins(
                    #[trigger] old(self)@.blocks[i],
                    key,
                    old(self).origin() + start,
                ),
        ensures
            final(self).wf(),
            final(self).origin() == old(self).origin(),
            final(self).policy() == old(self).policy(),
            final(self)@.stats == old(self)@.stats,
            exists|i: int|
                {
                    &&& 0 <= i < old(self)@.blocks.len()
                    &&& begins(#[trigger] old(self)@.blocks[i], key, old(self).origin() + start)
                    &&& final(self)@.blocks == old(self)@.blocks.remove(i).push(
                        old(self)@.blocks[i],
                    )
                },
    {
        let ghost blocks = self@.blocks;
        let ghost base = self.base as int;
        let ghost cells = cells_of(self.bytes@);
        let ghost ranges = self.ranges@;
        let mut i: usize = 0;
        while !(self.ranges[i].key == key && self.ranges[i].start == start)
            invariant
                self.ranges@ == ranges,
                blocks == blocks_of(cells, base, ranges),
                i < self.ranges.len(),
                forall|j: int|
                    0 <= j < i ==> !((#[trigger] ranges[j]).key == key && ranges[j].start == start),
                exists|j: int|
                    0 <= j < blocks.len() && begins(#[trigger] blocks[j], key, base + start),
            decreases ranges.len() - i,
        {
            proof {
                let j = choose|j: int|
                    0 <= j < blocks.len() && begins(#[trigger] blocks[j], key, base + start);
                assert(ranges[j].key == key && ranges[j].start == start);
            }
            i = i + 1;
        }
        let range = self.ranges.remove(i);
        self.ranges.push(range);
        proof {
            let after = blocks.remove(i as int).push(blocks[i as int]);
            assert(blocks[i as int] == block_of(cells, base, range));
            assert(self@.blocks =~= after);
            assert(begins(blocks[i as int], key, base + start));
            lemma_moved_last(blocks, i as int);
            assert forall|k: usize, offset: int| k < KEY_COUNT && 0 <= offset < DOMAIN implies
                #[trigger] cells[k as int][offset] == byte_at(after, k, base + offset) by {
                lemma_cell(cells, base, blocks, k, offset);
            }
            assert(dense(cells, base, after)) by {
                reveal(dense);
            }
            assert forall|j: int| 0 <= j < self.ranges@.len() implies ranged(
                #[trigger] self.ranges@[j],
            ) by {
                let k = if j == ranges.len() - 1 {
                    i as int
                } else if j < i {
                    j
                } else {
                    j + 1
                };
                assert(self.ranges@[j] == ranges[k]);
            }
        }
    }

    /// Copies the bytes of `start..end` under `key`.
    fn copy(&self, key: usize, start: usize, end: usize) -> (copied: Vec<u8>)
        requires
            self.wf(),
            key < KEY_COUNT,
            start <= end <= DOMAIN,
            resident(self@.blocks, key, self.origin() + start, self.origin() + end),
        ensures
            copied@ == content(self@.blocks, key, self.origin() + start, self.origin() + end),
    {
        let ghost base = self.base as int;
        let mut copied: Vec<u8> = Vec::new();
        let mut cursor: usize = start;
        assert(cells_of(self.bytes@)[key as int].len() == DOMAIN);
        assert(copied@ =~= content(self@.blocks, key, base + start, base + cursor));
        while cursor < end
            invariant
                self.wf(),
                key < self.bytes@.len() == KEY_COUNT,
                self.bytes@[key as int]@.len() == DOMAIN,
                base == self.base,
                start <= cursor <= end <= DOMAIN,
                resident(self@.blocks, key, base + start, base + end),
                copied@ == content(self@.blocks, key, base + start, base + cursor),
            decreases end - cursor,
        {
            let ghost before = copied@;
            proof {
                lemma_cell(cells_of(self.bytes@), base, self@.blocks, key, cursor as int);
            }
            assert(byte_at(self@.blocks, key, base + cursor) is Some);
            if let Some(byte) = self.bytes[key][cursor] {
                copied.push(byte);
            }
            cursor = cursor + 1;
            assert(copied@ =~= content(self@.blocks, key, base + start, base + cursor));
        }
        copied
    }

    /// Lists the ranges that overlap `start..end` under `key`, in ascending
    /// order of start.
    fn overlapped(&self, key: usize, start: usize, end: usize) -> (sorted: Vec<ModelRange>)
        requires
            self.wf(),
            start < end,
        ensures
            blocks_of(cells_of(self.bytes@), self.base as int, sorted@) == by_start(
                self@.blocks.filter(overlapping(key, self.origin() + start, self.origin() + end)),
            ),
    {
        let ghost blocks = self@.blocks;
        let ghost base = self.base as int;
        let ghost cells = cells_of(self.bytes@);
        let ghost meets = overlapping(key, base + start, base + end);
        let mut sorted: Vec<ModelRange> = Vec::new();
        let mut i: usize = 0;
        proof {
            reveal(Seq::filter);
            assert(blocks.take(0) =~= Seq::empty());
            assert(blocks_of(cells, base, sorted@) =~= Seq::empty());
        }
        while i < self.ranges.len()
            invariant
                self.wf(),
                blocks == self@.blocks,
                base == self.base,
                cells == cells_of(self.bytes@),
                start < end,
                meets == overlapping(key, base + start, base + end),
                i <= self.ranges@.len(),
                blocks_of(cells, base, sorted@) == by_start(blocks.take(i as int).filter(meets)),
            decreases self.ranges.len() - i,
        {
            let range = self.ranges[i];
            proof {
                reveal(Seq::filter);
                assert(ranged(range));
                assert(blocks[i as int] == block_of(cells, base, range));
                assert(blocks.take(i + 1).drop_last() =~= blocks.take(i as int));
                assert(blocks.take(i + 1).last() == blocks[i as int]);
                let met = blocks.take(i as int).filter(meets);
                assert(met.push(blocks[i as int]).drop_last() =~= met);
            }
            if range.key == key && range.start < end && range.end > start {
                place_range(&mut sorted, range, Ghost(cells), Ghost(base));
            }
            i = i + 1;
        }
        assert(blocks.take(i as int) =~= blocks);
        sorted
    }

    /// Returns the bytes of `start..end` under `key` if all of them are cached.
    pub fn get(&mut self, key: usize, start: usize, end: usize) -> (found: Result<
        Option<Vec<u8>>,
        RangeError,
    >)
        requires
            old(self).wf(),
            start != end ==> old(self).reaches(start) && old(self).reaches(end),
        ensures
            final(self).wf(),
            final(self).origin() == old(self).origin(),
            final(self).policy() == old(self).policy(),
            model_reads(
                old(self)@,
                final(self)@,
                key,
                located(old(self).origin(), start, end),
                found,
            ),
    {
        if start > end {
            return Err(self.range_error(start, end));
        }
        if start == end {
            let ghost position = located(self.base, start, end).start as int;
            return Ok(Some(self.look_up_nothing(Ghost(key), Ghost(position))));
        }
        Ok(self.look_up(key, start, end))
    }

    /// Returns the bytes of an empty range, wherever it is.
    fn look_up_nothing(&mut self, Ghost(key): Ghost<usize>, Ghost(position): Ghost<int>) -> (hit:
        Vec<u8>)
        requires
            old(self).wf(),
        ensures
            final(self).wf(),
            final(self).origin() == old(self).origin(),
            final(self).policy() == old(self).policy(),
            old(self)@.read(key, position, position) == Some(hit@),
            final(self)@ == old(self)@.after_read(key, position, position),
    {
        let ghost before = self@;
        let nothing: Vec<u8> = Vec::new();
        proof {
            law_empty_read(before, key, position);
            assert(nothing@ =~= Seq::<u8>::empty());
            assert(resident(before.blocks, key, position, position));
        }
        self.stats.hits = advance(self.stats.hits);
        assert(self@.blocks == before.blocks);
        nothing
    }

    /// Returns the bytes of `start..end` under `key` if all of them are cached.
    fn look_up(&mut self, key: usize, start: usize, end: usize) -> (hit: Option<Vec<u8>>)
        requires
            old(self).wf(),
            start < end,
        ensures
            final(self).wf(),
            final(self).origin() == old(self).origin(),
            final(self).policy() == old(self).policy(),
            old(self)@.read(key, old(self).origin() + start, old(self).origin() + end)
                == copied_view(hit),
            final(self)@ == old(self)@.after_read(
                key,
                old(self).origin() + start,
                old(self).origin() + end,
            ),
    {
        if let Some(i) = self.containing(key, start, end) {
            let copied = self.serve(i, start, end);
            self.stats.hits = advance(self.stats.hits);
            return Some(copied);
        }
        if self.refresh(key, start, end) {
            self.stats.partial_hits = advance(self.stats.partial_hits);
        } else {
            self.stats.misses = advance(self.stats.misses);
        }
        None
    }

    /// Makes the ranges that overlap `start..end` under `key` the most recently
    /// used, in ascending order of start, and tells whether there are any.
    fn refresh(&mut self, key: usize, start: usize, end: usize) -> (met_any: bool)
        requires
            old(self).wf(),
            start < end,
        ensures
            final(self).wf(),
            final(self).origin() == old(self).origin(),
            final(self).policy() == old(self).policy(),
            final(self)@.stats == old(self)@.stats,
            final(self)@.blocks == touched(
                old(self)@.blocks,
                key,
                old(self).origin() + start,
                old(self).origin() + end,
            ),
            met_any == !absent(
                old(self)@.blocks,
                key,
                old(self).origin() + start,
                old(self).origin() + end,
            ),
    {
        let ghost blocks = self@.blocks;
        let ghost met = blocks.filter(
            overlapping(key, self.origin() + start, self.origin() + end),
        );
        let covered = self.overlapped(key, start, end);
        proof {
            lemma_by_start(met);
            lemma_absent(blocks, key, self.origin() + start, self.origin() + end);
            assert(covered@.len() == met.len());
        }
        self.touch_all(&covered, Ghost(blocks), key, start, end);
        covered.len() > 0
    }

    /// Copies the bytes of `start..end` from the range at `i`, which spans them,
    /// and makes that range the most recently used.
    fn serve(&mut self, i: usize, start: usize, end: usize) -> (copied: Vec<u8>)
        requires
            old(self).wf(),
            i < old(self).ranges@.len(),
            old(self).ranges@[i as int].start <= start < end <= old(self).ranges@[i as int].end,
        ensures
            final(self).wf(),
            final(self).origin() == old(self).origin(),
            final(self).policy() == old(self).policy(),
            final(self)@.stats == old(self)@.stats,
            final(self)@.blocks == touched(
                old(self)@.blocks,
                old(self).ranges@[i as int].key,
                old(self).origin() + start,
                old(self).origin() + end,
            ),
            copied@ == content(
                old(self)@.blocks,
                old(self).ranges@[i as int].key,
                old(self).origin() + start,
                old(self).origin() + end,
            ),
    {
        let ghost blocks = self@.blocks;
        let ghost base = self.base as int;
        let range = self.ranges[i];
        proof {
            assert(ranged(range));
            assert(blocks[i as int] == block_of(cells_of(self.bytes@), base, range));
            assert(begins(blocks[i as int], range.key, base + range.start));
            lemma_touched_one(blocks, i as int, range.key, base + start, base + end);
            lemma_spanned(blocks, i as int, range.key, base + start, base + end);
        }
        let copied = self.copy(range.key, start, end);
        self.touch(range.key, range.start);
        proof {
            let j = choose|j: int|
                {
                    &&& 0 <= j < blocks.len()
                    &&& begins(#[trigger] blocks[j], range.key, base + range.start)
                    &&& self@.blocks == blocks.remove(j).push(blocks[j])
                };
            lemma_one_beginning(blocks, i as int, j);
        }
        copied
    }

    /// Makes the ranges of `covered`, which are those that overlap `start..end`
    /// under `key` in ascending order of start, the most recently used.
    fn touch_all(
        &mut self,
        covered: &Vec<ModelRange>,
        Ghost(blocks): Ghost<Seq<Block<usize>>>,
        key: usize,
        start: usize,
        end: usize,
    )
        requires
            old(self).wf(),
            blocks == old(self)@.blocks,
            blocks_of(cells_of(old(self).bytes@), old(self).base as int, covered@) == by_start(
                blocks.filter(
                    overlapping(key, old(self).origin() + start, old(self).origin() + end),
                ),
            ),
        ensures
            final(self).wf(),
            final(self).origin() == old(self).origin(),
            final(self).policy() == old(self).policy(),
            final(self)@.stats == old(self)@.stats,
            final(self)@.blocks == touched(
                blocks,
                key,
                old(self).origin() + start,
                old(self).origin() + end,
            ),
    {
        let ghost base = self.base as int;
        let ghost cells = cells_of(self.bytes@);
        let ghost low = base + start;
        let ghost high = base + end;
        let ghost sorted = by_start(blocks.filter(overlapping(key, low, high)));
        let mut i: usize = 0;
        proof {
            lemma_partly_touched_first(blocks, key, low, high);
            lemma_filter_well_formed(blocks, overlapping(key, low, high));
            lemma_by_start(blocks.filter(overlapping(key, low, high)));
            lemma_filter_members(blocks, overlapping(key, low, high));
            assert(covered@.len() == sorted.len());
        }
        while i < covered.len()
            invariant
                self.wf(),
                self.base == base,
                self.origin() == old(self).origin(),
                self.policy() == old(self).policy(),
                self@.stats == old(self)@.stats,
                well_formed(blocks),
                sorted == by_start(blocks.filter(overlapping(key, low, high))),
                sorted == blocks_of(cells, base, covered@),
                forall|block: Block<usize>| #[trigger]
                    sorted.contains(block) ==> blocks.contains(block) && block.key == key,
                covered@.len() == sorted.len(),
                i <= covered@.len(),
                self@.blocks == partly_touched(blocks, key, low, high, i as int),
            decreases covered.len() - i,
        {
            let block_start: usize = covered[i].start;
            let ghost now = self@.blocks;
            let ghost at = lemma_next_present(blocks, key, low, high, i as int);
            proof {
                assert(sorted[i as int] == block_of(cells, base, covered@[i as int]));
                assert(sorted.contains(sorted[i as int]));
                assert(begins(now[at], key, base + block_start));
            }
            self.touch(key, block_start);
            proof {
                let j = choose|j: int|
                    {
                        &&& 0 <= j < now.len()
                        &&& begins(#[trigger] now[j], key, base + block_start)
                        &&& self@.blocks == now.remove(j).push(now[j])
                    };
                lemma_one_beginning(now, at, j);
                lemma_partly_touched_step(blocks, key, low, high, i as int, at);
            }
            i = i + 1;
        }
        proof {
            lemma_partly_touched_last(blocks, key, low, high);
        }
    }

    /// Returns the bounds of the range that `start..end` merges into under
    /// `key`.
    fn merged_bounds(&self, key: usize, start: usize, end: usize) -> (bounds: (usize, usize))
        requires
            self.wf(),
            start < end,
        ensures
            bounds.0 <= start < end <= bounds.1,
            end <= DOMAIN ==> bounds.1 <= DOMAIN,
            self.origin() + bounds.0 == merged_start(self@.blocks, key, self.origin() + start),
            self.origin() + bounds.1 == merged_end(self@.blocks, key, self.origin() + end),
    {
        let ghost blocks = self@.blocks;
        let ghost base = self.base as int;
        let ghost cells = cells_of(self.bytes@);
        let mut first: usize = start;
        let mut last: usize = end;
        let mut i: usize = 0;
        while i < self.ranges.len()
            invariant
                self.wf(),
                blocks == self@.blocks,
                blocks.len() == self.ranges@.len(),
                base == self.base,
                cells == cells_of(self.bytes@),
                i <= self.ranges@.len(),
                first <= start < end <= last,
                end <= DOMAIN ==> last <= DOMAIN,
                first < start ==> base + first == merged_start(blocks, key, base + start),
                first == start ==> forall|j: int|
                    0 <= j < i ==> !(#[trigger] blocks[j]).joins_left(key, base + start),
                end < last ==> base + last == merged_end(blocks, key, base + end),
                last == end ==> forall|j: int|
                    0 <= j < i ==> !(#[trigger] blocks[j]).joins_right(key, base + end),
            decreases self.ranges.len() - i,
        {
            let range = self.ranges[i];
            assert(ranged(range));
            assert(blocks[i as int] == block_of(cells, base, range));
            if range.key == key && range.start <= end && start <= range.end {
                if range.start < start {
                    proof {
                        lemma_merged_start(blocks, i as int, key, base + start);
                    }
                    first = range.start;
                }
                if end < range.end {
                    proof {
                        lemma_merged_end(blocks, i as int, key, base + end);
                    }
                    last = range.end;
                }
            }
            i = i + 1;
        }
        (first, last)
    }

    /// Evicts the least recently used ranges until at most `limit` bytes stay.
    fn evict(&mut self, limit: usize)
        requires
            old(self).wf(),
        ensures
            final(self).wf(),
            final(self).origin() == old(self).origin(),
            final(self).policy() == old(self).policy(),
            final(self)@ == old(self)@.enforced(Some(limit as nat)),
    {
        let ghost all = self@.blocks;
        let ghost evictions = self.stats.evictions;
        let ghost mut count: nat = 0;
        assert(all.skip(0) =~= all);
        while self.resident_bytes() > limit
            invariant
                self.wf(),
                self.origin() == old(self).origin(),
                self.policy() == old(self).policy(),
                count <= all.len(),
                self@.blocks == all.skip(count as int),
                surplus(all, limit as nat) == count + surplus(self@.blocks, limit as nat),
                self.stats == (Stats {
                    evictions: advanced(evictions, count),
                    ..old(self).stats
                }),
            decreases self.ranges.len(),
        {
            let ghost blocks = self@.blocks;
            let ghost cells = cells_of(self.bytes@);
            let ghost ranges = self.ranges@;
            assert(ranges.len() == blocks.len());
            assert(blocks.len() > 0);
            assert(ranged(ranges[0]));
            proof {
                lemma_range_removed(cells, self.base as int, ranges, 0);
            }
            let oldest = self.ranges.remove(0);
            erase(&mut self.bytes, oldest);
            self.stats.evictions = advance(self.stats.evictions);
            proof {
                assert(self.ranges@ =~= ranges.remove(0));
                assert(self@.blocks == blocks.remove(0));
                assert(blocks.remove(0) =~= blocks.drop_first());
                assert(blocks.drop_first() =~= all.skip(count as int + 1));
                count = count + 1;
            }
        }
    }

    /// Adds the bytes of `start..end` under `key`.
    pub fn insert(&mut self, key: usize, start: usize, end: usize, payload: &[u8]) -> (inserted:
        Result<InsertOutcome, RangeError>)
        requires
            old(self).wf(),
            start != end || payload@.len() != 0 ==> old(self).reaches(start) && old(self).reaches(
                end,
            ),
            start < end && payload@.len() == end - start ==> key < KEY_COUNT,
            start < end && payload@.len() == end - start && old(self)@.insertion(
                old(self).policy().limit(),
                key,
                old(self).origin() + start,
                payload@,
            ) is Inserted ==> end <= DOMAIN,
        ensures
            final(self).wf(),
            final(self).origin() == old(self).origin(),
            final(self).policy() == old(self).policy(),
            inserts(
                old(self)@,
                final(self)@,
                old(self).policy().limit(),
                key,
                located(old(self).origin(), start, end),
                payload@,
                inserted,
            ),
    {
        if start > end {
            return Err(self.range_error(start, end));
        }
        let expected: usize = end - start;
        if payload.len() != expected {
            return Err(
                RangeError::PayloadLengthMismatch {
                    range: self.absolute(start)..self.absolute(end),
                    expected,
                    actual: payload.len(),
                },
            );
        }
        if start == end {
            return Ok(InsertOutcome::AlreadyCovered);
        }
        if self.containing(key, start, end).is_some() {
            return Ok(InsertOutcome::AlreadyCovered);
        }
        let (first, last) = self.merged_bounds(key, start, end);
        let ghost blocks = self@.blocks;
        let ghost base = self.base as int;
        assert(merged(blocks, key, base + start, payload@).bytes.len() == last - first);
        if let CacheCapacity::Bounded(capacity) = self.capacity {
            if last - first > capacity.get() {
                self.stats.rejections = advance(self.stats.rejections);
                return Ok(InsertOutcome::TooLarge);
            }
        }
        self.merge_in(key, start, end, first, last, payload);
        if let CacheCapacity::Bounded(capacity) = self.capacity {
            self.evict(capacity.get());
        }
        Ok(InsertOutcome::Inserted)
    }

    /// Merges the bytes of `start..end` under `key` into the range
    /// `first..last`.
    fn merge_in(
        &mut self,
        key: usize,
        start: usize,
        end: usize,
        first: usize,
        last: usize,
        payload: &[u8],
    )
        requires
            old(self).wf(),
            key < KEY_COUNT,
            first <= start < end <= last <= DOMAIN,
            old(self).reaches(end),
            payload@.len() == end - start,
            old(self).origin() + first == merged_start(
                old(self)@.blocks,
                key,
                old(self).origin() + start,
            ),
            old(self).origin() + last == merged_end(
                old(self)@.blocks,
                key,
                old(self).origin() + end,
            ),
        ensures
            final(self).wf(),
            final(self).origin() == old(self).origin(),
            final(self).policy() == old(self).policy(),
            final(self)@.blocks == admitted(
                old(self)@.blocks,
                key,
                old(self).origin() + start,
                payload@,
            ),
            final(self)@.stats == (Stats {
                insertions: advanced(old(self)@.stats.insertions, 1),
                ..old(self)@.stats
            }),
    {
        let range = ModelRange { key, start: first, end: last };
        proof {
            lemma_admitted(
                cells_of(self.bytes@),
                self.base as int,
                self.ranges@,
                range,
                start,
                end,
                payload@,
            );
        }
        write(&mut self.bytes, key, start, payload);
        drop_ranges(&mut self.ranges, key, start, end);
        self.ranges.push(range);
        self.stats.insertions = advance(self.stats.insertions);
    }

    /// Drops every range of `key` and reports how many ranges and bytes that
    /// were.
    pub fn invalidate(&mut self, key: usize) -> (invalidation: Invalidation)
        requires
            old(self).wf(),
            key < KEY_COUNT,
        ensures
            final(self).wf(),
            final(self).origin() == old(self).origin(),
            final(self).policy() == old(self).policy(),
            invalidates(old(self)@, final(self)@, key, invalidation),
    {
        let ghost cells = cells_of(self.bytes@);
        let ghost base = self.base as int;
        let ghost ranges = self.ranges@;
        let ghost blocks = self@.blocks;
        let ghost keep = clear_of(key, 0, DOMAIN);
        proof {
            assert forall|i: int| 0 <= i < ranges.len() implies keep(#[trigger] ranges[i])
                == not_owned_by(key)(block_of(cells, base, ranges[i])) by {
                assert(ranged(ranges[i]));
            }
            lemma_blocks_filter(cells, base, ranges, keep, not_owned_by(key));
            lemma_owned_total(cells, base, ranges, key);
            lemma_filter_well_formed(blocks, not_owned_by(key));
            lemma_invalidated_bytes(blocks, key);
            lemma_filter_lengths(blocks, not_owned_by(key), owned_by(key));
            lemma_ranges_kept(ranges, keep);
        }
        let bytes: usize = count_row(&self.bytes[key]);
        let count: usize = drop_ranges(&mut self.ranges, key, 0, DOMAIN);
        self.bytes.set(key, empty_row());
        proof {
            let after = cells_of(self.bytes@);
            let kept = self.ranges@;
            assert forall|i: int, offset: int|
                0 <= i < kept.len() && kept[i].start <= offset < kept[i].end implies
                #[trigger] after[kept[i].key as int][offset] == cells[kept[i].key as int][offset] by {
                assert(keep(kept[i]) && ranged(kept[i]));
            }
            lemma_blocks_agree(after, cells, base, kept);
            assert forall|k: int| 0 <= k < KEY_COUNT implies (#[trigger] after[k]).len() == DOMAIN by {
                assert(k == key || after[k] == cells[k]);
            }
            assert(self@.blocks == blocks.filter(not_owned_by(key)));
            assert forall|k: usize, offset: int| k < KEY_COUNT && 0 <= offset < DOMAIN implies
                #[trigger] after[k as int][offset] == byte_at(
                self@.blocks,
                k,
                base + offset,
            ) by {
                lemma_cell(cells, base, blocks, k, offset);
            }
            assert(dense(after, base, self@.blocks)) by {
                reveal(dense);
            }
        }
        Invalidation { ranges: count, bytes }
    }

    /// Drops every range and reports how many ranges and bytes that were.  The
    /// counters stay.
    pub fn clear(&mut self) -> (invalidation: Invalidation)
        requires
            old(self).wf(),
        ensures
            final(self).wf(),
            final(self).origin() == old(self).origin(),
            final(self).policy() == old(self).policy(),
            clears(old(self)@, final(self)@, invalidation),
    {
        let bytes: usize = self.resident_bytes();
        assert(self@.blocks.len() == self.ranges.len());
        let invalidation = Invalidation { ranges: self.ranges.len(), bytes };
        let stats: Stats = self.stats;
        *self = Model::new(self.base, self.capacity);
        self.stats = stats;
        invalidation
    }

    /// Counts the cells that hold a byte.
    pub fn resident_bytes(&self) -> (count: usize)
        requires
            self.wf(),
        ensures
            count == total(self@.blocks),
    {
        let ghost cells = cells_of(self.bytes@);
        let mut count: usize = 0;
        let mut key: usize = 0;
        assert(cells.take(0) =~= Seq::empty());
        while key < self.bytes.len()
            invariant
                cells == cells_of(self.bytes@),
                shaped(cells),
                key <= KEY_COUNT,
                count <= key * 32,
                count == cell_total(cells.take(key as int)),
            decreases KEY_COUNT - key,
        {
            proof {
                assert(cells.take(key + 1).drop_last() =~= cells.take(key as int));
                assert(cells.take(key + 1).last() == cells[key as int]);
            }
            count = count + count_row(&self.bytes[key]);
            key = key + 1;
        }
        proof {
            assert(cells.take(key as int) =~= cells);
            lemma_cell_total(cells, self.base as int, self.ranges@);
        }
        count
    }

    /// Tells whether `key` owns a range.
    fn occupied(&self, key: usize) -> (found: bool)
        ensures
            found == keys(self@.blocks).contains(key),
    {
        let ghost blocks = self@.blocks;
        let ghost names = blocks.map_values(|block: Block<usize>| block.key);
        let mut i: usize = 0;
        while i < self.ranges.len()
            invariant
                blocks == self@.blocks,
                names == blocks.map_values(|block: Block<usize>| block.key),
                blocks.len() == self.ranges@.len(),
                i <= self.ranges@.len(),
                forall|j: int| 0 <= j < i ==> #[trigger] names[j] != key,
            decreases self.ranges.len() - i,
        {
            assert(names[i as int] == self.ranges@[i as int].key);
            if self.ranges[i].key == key {
                assert(names.contains(key));
                return true;
            }
            i = i + 1;
        }
        false
    }

    /// Reports the state and the statistics.
    pub fn snapshot(&self) -> (report: CacheSnapshot)
        requires
            self.wf(),
        ensures
            reports(self@, self.policy(), report),
    {
        let ghost owners = keys(self@.blocks);
        let mut owned: usize = 0;
        let mut key: usize = 0;
        proof {
            lemma_keys_finite(self@.blocks);
            assert(owners.filter(|k: usize| k < 0) =~= Set::empty());
        }
        while key < KEY_COUNT
            invariant
                owners == keys(self@.blocks),
                owners.finite(),
                owned <= key <= KEY_COUNT,
                owned == owners.filter(|k: usize| k < key).len(),
            decreases KEY_COUNT - key,
        {
            proof {
                let below = owners.filter(|k: usize| k < key);
                let upto = owners.filter(|k: usize| k < key + 1);
                if owners.contains(key) {
                    assert(upto =~= below.insert(key));
                } else {
                    assert(upto =~= below);
                }
            }
            if self.occupied(key) {
                owned = owned + 1;
            }
            key = key + 1;
        }
        proof {
            assert forall|k: usize| #[trigger] owners.contains(k) implies k < KEY_COUNT by {
                let names = self@.blocks.map_values(|block: Block<usize>| block.key);
                let i = choose|i: int| 0 <= i < names.len() && names[i] == k;
                assert(ranged(self.ranges@[i]));
            }
            assert(owners.filter(|k: usize| k < KEY_COUNT) =~= owners);
            assert(self@.blocks.len() == self.ranges.len());
        }
        CacheSnapshot {
            capacity: self.capacity,
            resident_bytes: self.resident_bytes(),
            keys: owned,
            ranges: self.ranges.len(),
            hits: self.stats.hits,
            partial_hits: self.stats.partial_hits,
            misses: self.stats.misses,
            insertions: self.stats.insertions,
            admissions_rejected_too_large: self.stats.rejections,
            evictions: self.stats.evictions,
        }
    }
}

/// The keys that own a block are finitely many.
proof fn lemma_keys_finite(blocks: Seq<Block<usize>>)
    ensures
        keys(blocks).finite(),
{
    vstd::seq_lib::seq_to_set_is_finite(blocks.map_values(|block: Block<usize>| block.key));
}

/// What a filter of ranges keeps is within the cells and passes the filter.
proof fn lemma_ranges_kept(ranges: Seq<ModelRange>, keep: spec_fn(ModelRange) -> bool)
    requires
        forall|i: int| 0 <= i < ranges.len() ==> ranged(#[trigger] ranges[i]),
    ensures
        forall|i: int|
            0 <= i < ranges.filter(keep).len() ==> ranged(#[trigger] ranges.filter(keep)[i])
                && keep(ranges.filter(keep)[i]),
    decreases ranges.len(),
{
    reveal(Seq::filter);
    if ranges.len() > 0 {
        let init = ranges.drop_last();
        assert(forall|i: int| 0 <= i < init.len() ==> init[i] == ranges[i]);
        lemma_ranges_kept(init, keep);
        let last = ranges.last();
        assert(last == ranges[ranges.len() - 1]);
        let kept = ranges.filter(keep);
        assert forall|i: int| 0 <= i < kept.len() implies ranged(#[trigger] kept[i]) && keep(
            kept[i],
        ) by {
            if i < init.filter(keep).len() {
                assert(kept[i] == init.filter(keep)[i]);
            } else {
                assert(kept[i] == last);
            }
        }
    }
}

/// The cells with `payload` written at `start` under `key`.
spec fn written(cells: Cells, key: int, start: int, payload: Seq<u8>) -> Cells {
    cells.update(
        key,
        Seq::new(
            cells[key].len(),
            |offset: int|
                if start <= offset < start + payload.len() {
                    Some(payload[offset - start])
                } else {
                    cells[key][offset]
                },
        ),
    )
}

/// Writes `payload` at `start` under `key`.
fn write(rows: &mut Vec<Vec<Option<u8>>>, key: usize, start: usize, payload: &[u8])
    requires
        key < old(rows)@.len(),
        start + payload@.len() <= old(rows)@[key as int]@.len(),
    ensures
        cells_of(final(rows)@) == written(
            cells_of(old(rows)@),
            key as int,
            start as int,
            payload@,
        ),
{
    let ghost before = rows@;
    let row = &mut rows[key];
    let ghost old_row = row@;
    let mut i: usize = 0;
    assert(old_row.len() == row.len());
    while i < payload.len()
        invariant
            i <= payload@.len(),
            row@.len() == old_row.len(),
            start + payload@.len() <= old_row.len() <= usize::MAX,
            forall|o: int|
                0 <= o < old_row.len() ==> #[trigger] row@[o] == if start <= o < start + i {
                    Some(payload@[o - start])
                } else {
                    old_row[o]
                },
        decreases payload.len() - i,
    {
        row.set(start + i, Some(payload[i]));
        i = i + 1;
    }
    proof {
        let goal = written(cells_of(before), key as int, start as int, payload@);
        assert(row@ =~= goal[key as int]);
    }
    assert(cells_of(rows@) =~= written(cells_of(before), key as int, start as int, payload@));
}

/// Empties the cells of a range.
fn erase(rows: &mut Vec<Vec<Option<u8>>>, range: ModelRange)
    requires
        range.key < old(rows)@.len(),
        range.start <= range.end <= old(rows)@[range.key as int]@.len(),
    ensures
        cells_of(final(rows)@) == without(cells_of(old(rows)@), range),
{
    let ghost before = rows@;
    let row = &mut rows[range.key];
    let ghost old_row = row@;
    let mut offset: usize = range.start;
    while offset < range.end
        invariant
            range.start <= offset <= range.end <= old_row.len(),
            row@.len() == old_row.len(),
            forall|o: int|
                0 <= o < old_row.len() ==> #[trigger] row@[o] == if range.start <= o < offset {
                    None
                } else {
                    old_row[o]
                },
        decreases range.end - offset,
    {
        row.set(offset, None);
        offset = offset + 1;
    }
    proof {
        let goal = without(cells_of(before), range);
        assert(row@ =~= goal[range.key as int]);
    }
    assert(cells_of(rows@) =~= without(cells_of(before), range));
}

/// Writing a payload and merging its range keeps the model sound and admits the
/// payload.
proof fn lemma_admitted(
    cells: Cells,
    base: int,
    ranges: Seq<ModelRange>,
    range: ModelRange,
    start: usize,
    end: usize,
    payload: Seq<u8>,
)
    requires
        sound(cells, base, ranges),
        ranged(range),
        range.start <= start < end <= range.end,
        base + end <= usize::MAX,
        payload.len() == end - start,
        base + range.start == merged_start(
            blocks_of(cells, base, ranges),
            range.key,
            base + start,
        ),
        base + range.end == merged_end(blocks_of(cells, base, ranges), range.key, base + end),
    ensures
        sound(
            written(cells, range.key as int, start as int, payload),
            base,
            ranges.filter(clear_of(range.key, start, end)).push(range),
        ),
        blocks_of(
            written(cells, range.key as int, start as int, payload),
            base,
            ranges.filter(clear_of(range.key, start, end)).push(range),
        ) == admitted(blocks_of(cells, base, ranges), range.key, base + start, payload),
{
    let key = range.key;
    let blocks = blocks_of(cells, base, ranges);
    let after = written(cells, key as int, start as int, payload);
    let keep = clear_of(key, start, end);
    let kept = ranges.filter(keep);
    let all = kept.push(range);
    let goal = admitted(blocks, key, base + start, payload);
    let skip = not_touching(key, base + start, base + end);
    assert forall|i: int| 0 <= i < ranges.len() implies keep(#[trigger] ranges[i]) == skip(
        block_of(cells, base, ranges[i]),
    ) by {
        assert(ranged(ranges[i]));
    }
    lemma_blocks_filter(cells, base, ranges, keep, skip);
    lemma_ranges_kept(ranges, keep);
    assert forall|i: int, offset: int|
        0 <= i < kept.len() && kept[i].start <= offset < kept[i].end implies
        #[trigger] after[kept[i].key as int][offset] == cells[kept[i].key as int][offset] by {
        assert(keep(kept[i]) && ranged(kept[i]));
    }
    lemma_blocks_agree(after, cells, base, kept);
    let block = merged(blocks, key, base + start, payload);
    let ours = block_of(after, base, range);
    assert forall|j: int| 0 <= j < ours.bytes.len() implies #[trigger] ours.bytes[j]
        == block.bytes[j] by {
        let offset = range.start + j;
        lemma_cell(cells, base, blocks, key, offset);
        assert(base + range.start + j == base + offset);
    }
    assert(ours.bytes =~= block.bytes);
    assert(blocks_of(after, base, all) =~= blocks_of(after, base, kept).push(ours));
    assert(blocks_of(after, base, all) =~= goal);
    lemma_admitted_well_formed(blocks, key, base + start, payload);
    lemma_admitted_bytes(blocks, key, base + start, payload);
    assert forall|k: usize, offset: int| k < KEY_COUNT && 0 <= offset < DOMAIN implies
        #[trigger] after[k as int][offset] == byte_at(goal, k, base + offset) by {
        lemma_cell(cells, base, blocks, k, offset);
    }
    assert(dense(after, base, goal)) by {
        reveal(dense);
    }
    assert forall|k: int| 0 <= k < KEY_COUNT implies (#[trigger] after[k]).len() == DOMAIN by {
        assert(cells[k].len() == DOMAIN);
    }
    assert forall|i: int| 0 <= i < all.len() implies ranged(#[trigger] all[i]) by {
        if i < kept.len() {
            assert(all[i] == kept[i]);
        }
    }
}

/// Counts the cells of a row that hold a byte.
fn count_row(row: &Vec<Option<u8>>) -> (count: usize)
    ensures
        count == row_total(row@),
        count <= row@.len(),
{
    let ghost cells = row@;
    let mut count: usize = 0;
    let mut offset: usize = 0;
    assert(cells.take(0) =~= Seq::empty());
    while offset < row.len()
        invariant
            cells == row@,
            count <= offset <= cells.len(),
            count == row_total(cells.take(offset as int)),
        decreases row.len() - offset,
    {
        proof {
            assert(cells.take(offset + 1).drop_last() =~= cells.take(offset as int));
            assert(cells.take(offset + 1).last() == cells[offset as int]);
        }
        if row[offset].is_some() {
            count = count + 1;
        }
        offset = offset + 1;
    }
    assert(cells.take(offset as int) =~= cells);
    count
}

/// Takes out the ranges that overlap or are adjacent to `low..high` under
/// `key`, and returns how many those were.
fn drop_ranges(ranges: &mut Vec<ModelRange>, key: usize, low: usize, high: usize) -> (count: usize)
    ensures
        final(ranges)@ == old(ranges)@.filter(clear_of(key, low, high)),
        final(ranges)@.len() + count == old(ranges)@.len(),
{
    let ghost all = ranges@;
    let ghost keep = clear_of(key, low, high);
    let ghost mut seen: int = 0;
    let mut count: usize = 0;
    let mut i: usize = 0;
    proof {
        reveal(Seq::filter);
        assert(all.len() == ranges.len());
        assert(all.take(0) =~= Seq::empty());
        assert(ranges@ =~= all.take(0).filter(keep) + all.skip(0));
    }
    while i < ranges.len()
        invariant
            keep == clear_of(key, low, high),
            0 <= seen <= all.len(),
            i == all.take(seen).filter(keep).len(),
            ranges@ == all.take(seen).filter(keep) + all.skip(seen),
            count + i == seen,
            all.len() <= usize::MAX,
        decreases all.len() - seen,
    {
        let ghost before = ranges@;
        let ghost kept = all.take(seen).filter(keep);
        let ghost current = all[seen];
        assert(before[i as int] == current);
        proof {
            reveal(Seq::filter);
            assert(all.take(seen + 1).drop_last() =~= all.take(seen));
            assert(all.take(seen + 1).last() == current);
        }
        if ranges[i].key == key && ranges[i].start <= high && low <= ranges[i].end {
            ranges.remove(i);
            count = count + 1;
            assert(ranges@ =~= kept + all.skip(seen + 1));
        } else {
            i = i + 1;
            assert(ranges@ =~= kept.push(current) + all.skip(seen + 1));
        }
        proof {
            seen = seen + 1;
        }
    }
    proof {
        assert(all.take(seen) =~= all);
        assert(ranges@ =~= all.filter(keep));
    }
    count
}

/// Selects the ranges that neither overlap nor are adjacent to `low..high`
/// under `key`.
spec fn clear_of(key: usize, low: usize, high: usize) -> spec_fn(ModelRange) -> bool {
    |range: ModelRange| !(range.key == key && range.start <= high && low <= range.end)
}

/// Filtering ranges and filtering the blocks they stand for come to the same.
proof fn lemma_blocks_filter(
    cells: Cells,
    base: int,
    ranges: Seq<ModelRange>,
    keep: spec_fn(ModelRange) -> bool,
    keep_block: spec_fn(Block<usize>) -> bool,
)
    requires
        forall|i: int|
            0 <= i < ranges.len() ==> keep(#[trigger] ranges[i]) == keep_block(
                block_of(cells, base, ranges[i]),
            ),
    ensures
        blocks_of(cells, base, ranges.filter(keep)) == blocks_of(cells, base, ranges).filter(
            keep_block,
        ),
    decreases ranges.len(),
{
    reveal(Seq::filter);
    let blocks = blocks_of(cells, base, ranges);
    if ranges.len() > 0 {
        let init = ranges.drop_last();
        assert(forall|i: int| 0 <= i < init.len() ==> init[i] == ranges[i]);
        lemma_blocks_filter(cells, base, init, keep, keep_block);
        assert(blocks.drop_last() =~= blocks_of(cells, base, init));
        assert(blocks.last() == block_of(cells, base, ranges[ranges.len() - 1]));
        assert(blocks_of(cells, base, ranges.filter(keep)) =~= blocks.filter(keep_block));
    } else {
        assert(blocks_of(cells, base, ranges.filter(keep)) =~= blocks.filter(keep_block));
    }
}

/// Cells that agree on every range give the same blocks.
proof fn lemma_blocks_agree(left: Cells, right: Cells, base: int, ranges: Seq<ModelRange>)
    requires
        forall|i: int| 0 <= i < ranges.len() ==> ranged(#[trigger] ranges[i]),
        forall|i: int, offset: int|
            0 <= i < ranges.len() && ranges[i].start <= offset < ranges[i].end
                ==> #[trigger] left[ranges[i].key as int][offset]
                == right[ranges[i].key as int][offset],
    ensures
        blocks_of(left, base, ranges) == blocks_of(right, base, ranges),
{
    assert forall|i: int| 0 <= i < ranges.len() implies block_of(left, base, #[trigger] ranges[i])
        == block_of(right, base, ranges[i]) by {
        let ours = block_of(left, base, ranges[i]).bytes;
        let theirs = block_of(right, base, ranges[i]).bytes;
        assert forall|j: int| 0 <= j < ours.len() implies #[trigger] ours[j] == theirs[j] by {
            assert(left[ranges[i].key as int][ranges[i].start + j]
                == right[ranges[i].key as int][ranges[i].start + j]);
        }
        assert(ours =~= theirs);
    }
    assert(blocks_of(left, base, ranges) =~= blocks_of(right, base, ranges));
}

/// A block and its range cover the same cells.
proof fn lemma_block_cells(cells: Cells, base: int, ranges: Seq<ModelRange>, i: int)
    requires
        sound(cells, base, ranges),
        0 <= i < ranges.len(),
    ensures
        blocks_of(cells, base, ranges)[i] == block_of(cells, base, ranges[i]),
        forall|offset: int|
            ranges[i].start <= offset < ranges[i].end
                ==> (#[trigger] cells[ranges[i].key as int][offset]) is Some,
{
    let blocks = blocks_of(cells, base, ranges);
    assert forall|offset: int| ranges[i].start <= offset < ranges[i].end implies (
    #[trigger] cells[ranges[i].key as int][offset]) is Some by {
        assert(ranged(ranges[i]));
        lemma_byte_at(blocks, i, ranges[i].key, base + offset);
        lemma_cell(cells, base, blocks, ranges[i].key, offset);
    }
}

/// Emptying a run of cells that hold a byte lowers the count by its length.
proof fn lemma_row_emptied(row: Seq<Option<u8>>, start: int, end: int)
    requires
        0 <= start <= end <= row.len(),
        forall|offset: int| start <= offset < end ==> (#[trigger] row[offset]) is Some,
    ensures
        row_total(row) == row_total(emptied(row, start, end)) + (end - start),
    decreases end - start,
{
    if start < end {
        lemma_row_emptied(row, start, end - 1);
        let before = emptied(row, start, end - 1);
        assert(emptied(row, start, end) =~= before.update(end - 1, None));
        assert(before[end - 1] == row[end - 1]);
        lemma_row_update(before, end - 1, None);
    } else {
        assert(emptied(row, start, end) =~= row);
    }
}

/// Replacing a cell changes the count by that cell.
proof fn lemma_row_update(row: Seq<Option<u8>>, offset: int, cell: Option<u8>)
    requires
        0 <= offset < row.len(),
    ensures
        row_total(row.update(offset, cell)) == row_total(row) - (if row[offset] is Some {
            1int
        } else {
            0
        }) + (if cell is Some {
            1int
        } else {
            0
        }),
    decreases row.len(),
{
    let new = row.update(offset, cell);
    if offset == row.len() - 1 {
        assert(new.drop_last() =~= row.drop_last());
    } else {
        assert(new.drop_last() =~= row.drop_last().update(offset, cell));
        lemma_row_update(row.drop_last(), offset, cell);
    }
}

/// A row without bytes counts nothing.
proof fn lemma_row_empty(row: Seq<Option<u8>>)
    requires
        forall|offset: int| 0 <= offset < row.len() ==> (#[trigger] row[offset]) is None,
    ensures
        row_total(row) == 0,
    decreases row.len(),
{
    if row.len() > 0 {
        let init = row.drop_last();
        assert(forall|offset: int| 0 <= offset < init.len() ==> init[offset] == row[offset]);
        lemma_row_empty(init);
        assert(row.last() == row[row.len() - 1]);
    }
}

/// The cells with those of a range emptied.
spec fn without(cells: Cells, range: ModelRange) -> Cells {
    cells.update(
        range.key as int,
        emptied(cells[range.key as int], range.start as int, range.end as int),
    )
}

/// Dropping a range and emptying its cells keeps the model sound and drops one
/// block.
proof fn lemma_range_removed(cells: Cells, base: int, ranges: Seq<ModelRange>, i: int)
    requires
        sound(cells, base, ranges),
        0 <= i < ranges.len(),
    ensures
        sound(without(cells, ranges[i]), base, ranges.remove(i)),
        blocks_of(without(cells, ranges[i]), base, ranges.remove(i)) == blocks_of(
            cells,
            base,
            ranges,
        ).remove(i),
        row_total(cells[ranges[i].key as int]) == row_total(
            without(cells, ranges[i])[ranges[i].key as int],
        ) + (ranges[i].end - ranges[i].start),
{
    let blocks = blocks_of(cells, base, ranges);
    let gone = ranges[i];
    let rest = ranges.remove(i);
    let after = without(cells, gone);
    assert(ranged(gone));
    assert forall|j: int| 0 <= j < rest.len() implies #[trigger] rest[j] == if j < i {
        ranges[j]
    } else {
        ranges[j + 1]
    } by {}
    assert forall|j: int, offset: int|
        0 <= j < rest.len() && rest[j].start <= offset < rest[j].end implies
        #[trigger] after[rest[j].key as int][offset] == cells[rest[j].key as int][offset] by {
        let k = if j < i {
            j
        } else {
            j + 1
        };
        assert(rest[j] == ranges[k]);
        assert(ranged(ranges[k]));
        assert(blocks[k] == block_of(cells, base, ranges[k]));
        assert(blocks[i] == block_of(cells, base, gone));
        assert(i < k || k < i);
    }
    lemma_blocks_agree(after, cells, base, rest);
    assert(blocks_of(cells, base, rest) =~= blocks.remove(i));
    lemma_removed_bytes(blocks, i);
    lemma_block_cells(cells, base, ranges, i);
    assert forall|key: usize, offset: int| key < KEY_COUNT && 0 <= offset < DOMAIN implies
        #[trigger] after[key as int][offset] == byte_at(blocks.remove(i), key, base + offset) by {
        lemma_cell(cells, base, blocks, key, offset);
    }
    assert(dense(after, base, blocks.remove(i))) by {
        reveal(dense);
    }
    lemma_row_emptied(cells[gone.key as int], gone.start as int, gone.end as int);
}

/// The bytes of a key's blocks are the cells of its row that hold a byte.
proof fn lemma_owned_total(cells: Cells, base: int, ranges: Seq<ModelRange>, key: usize)
    requires
        sound(cells, base, ranges),
        key < KEY_COUNT,
    ensures
        total(blocks_of(cells, base, ranges).filter(owned_by(key))) == row_total(cells[key as int]),
    decreases ranges.len(),
{
    reveal(Seq::filter);
    let blocks = blocks_of(cells, base, ranges);
    if ranges.len() == 0 {
        assert(blocks =~= Seq::empty());
        assert forall|offset: int| 0 <= offset < cells[key as int].len() implies (
        #[trigger] cells[key as int][offset]) is None by {
            lemma_cell(cells, base, blocks, key, offset);
        }
        lemma_row_empty(cells[key as int]);
    } else {
        let last = ranges.len() - 1;
        let gone = ranges[last];
        assert(ranged(gone));
        lemma_range_removed(cells, base, ranges, last);
        lemma_owned_total(without(cells, gone), base, ranges.remove(last), key);
        assert(blocks.remove(last) =~= blocks.drop_last());
        assert(blocks.last() == block_of(cells, base, gone));
        lemma_total_push(blocks.drop_last().filter(owned_by(key)), blocks.last());
    }
}

/// Selects the blocks of the first `count` keys.
spec fn owned_below(count: int) -> spec_fn(Block<usize>) -> bool {
    |block: Block<usize>| block.key < count
}

/// The bytes of the blocks of the first `count` keys are the cells of their rows
/// that hold a byte.
proof fn lemma_total_below(cells: Cells, base: int, ranges: Seq<ModelRange>, count: int)
    requires
        sound(cells, base, ranges),
        0 <= count <= KEY_COUNT,
    ensures
        total(blocks_of(cells, base, ranges).filter(owned_below(count))) == cell_total(
            cells.take(count),
        ),
    decreases count,
{
    let blocks = blocks_of(cells, base, ranges);
    if count == 0 {
        lemma_filter_extremes(blocks, owned_below(0));
        assert(cells.take(0) =~= Seq::empty());
    } else {
        let key = (count - 1) as usize;
        lemma_total_below(cells, base, ranges, count - 1);
        lemma_owned_total(cells, base, ranges, key);
        assert(cells.take(count).drop_last() =~= cells.take(count - 1));
        assert(cells.take(count).last() == cells[count - 1]);
        lemma_total_split(blocks, count);
    }
}

/// The blocks of the first `count` keys are those of the keys before the last
/// of them, and those of the last.
proof fn lemma_total_split(blocks: Seq<Block<usize>>, count: int)
    requires
        0 < count <= KEY_COUNT,
    ensures
        total(blocks.filter(owned_below(count))) == total(blocks.filter(owned_below(count - 1)))
            + total(blocks.filter(owned_by((count - 1) as usize))),
    decreases blocks.len(),
{
    reveal(Seq::filter);
    if blocks.len() > 0 {
        let init = blocks.drop_last();
        let last = blocks.last();
        lemma_total_split(init, count);
        lemma_total_push(init.filter(owned_below(count)), last);
        lemma_total_push(init.filter(owned_below(count - 1)), last);
        lemma_total_push(init.filter(owned_by((count - 1) as usize)), last);
    }
}

/// The bytes of all blocks are the cells that hold a byte.
proof fn lemma_cell_total(cells: Cells, base: int, ranges: Seq<ModelRange>)
    requires
        sound(cells, base, ranges),
    ensures
        total(blocks_of(cells, base, ranges)) == cell_total(cells),
{
    let blocks = blocks_of(cells, base, ranges);
    lemma_total_below(cells, base, ranges, KEY_COUNT as int);
    assert forall|i: int| 0 <= i < blocks.len() implies owned_below(KEY_COUNT as int)(
        #[trigger] blocks[i],
    ) by {
        assert(ranged(ranges[i]));
    }
    lemma_filter_extremes(blocks, owned_below(KEY_COUNT as int));
    assert(cells.take(KEY_COUNT as int) =~= cells);
}

/// The content of a well-formed model is well-formed, and every block lies under
/// one of the keys and within the offsets that the model covers.
pub proof fn law_model_is_well_formed(model: Model)
    requires
        model.wf(),
    ensures
        model@.wf(),
        forall|i: int|
            0 <= i < model@.blocks.len() ==> (#[trigger] model@.blocks[i]).key < KEY_COUNT
                && model.origin() <= model@.blocks[i].start && model@.blocks[i].end()
                <= model.origin() + DOMAIN,
{
    assert forall|i: int| 0 <= i < model@.blocks.len() implies (#[trigger] model@.blocks[i]).key
        < KEY_COUNT && model.origin() <= model@.blocks[i].start && model@.blocks[i].end()
        <= model.origin() + DOMAIN by {
        assert(ranged(model.ranges@[i]));
        assert(model@.blocks[i] == block_of(
            cells_of(model.bytes@),
            model.base as int,
            model.ranges@[i],
        ));
    }
}

/// The block begins at `start` under `key`.
pub open spec fn begins(block: Block<usize>, key: usize, start: int) -> bool {
    block.key == key && block.start == start
}

/// The bytes that an optional copy holds.
pub open spec fn copied_view(copied: Option<Vec<u8>>) -> Option<Seq<u8>> {
    match copied {
        Some(bytes) => Some(bytes@),
        None => None,
    }
}

/// A read of `range` under `key` that copies the bytes it returns.
pub open spec fn model_reads(
    before: CacheView<usize>,
    after: CacheView<usize>,
    key: usize,
    range: Range<usize>,
    answer: Result<Option<Vec<u8>>, RangeError>,
) -> bool {
    match answer {
        Err(fault) => {
            &&& range_fault(range) == Some(fault)
            &&& after == before
        },
        Ok(hit) => {
            &&& range_fault(range) is None
            &&& before.read(key, range.start as int, range.end as int) == copied_view(hit)
            &&& after == before.after_read(key, range.start as int, range.end as int)
        },
    }
}

/// No two blocks of one key begin at the same offset.
proof fn lemma_one_beginning(blocks: Seq<Block<usize>>, i: int, j: int)
    requires
        well_formed(blocks),
        0 <= i < blocks.len(),
        0 <= j < blocks.len(),
        blocks[i].key == blocks[j].key,
        blocks[i].start == blocks[j].start,
    ensures
        i == j,
{
    assert(blocks[i].in_domain() && blocks[j].in_domain());
    assert(i < j || j < i || i == j);
}

/// Moving a block to the end changes the order only.
proof fn lemma_moved_last(blocks: Seq<Block<usize>>, i: int)
    requires
        well_formed(blocks),
        0 <= i < blocks.len(),
    ensures
        well_formed(blocks.remove(i).push(blocks[i])),
        forall|key: usize, offset: int| #[trigger]
            byte_at(blocks.remove(i).push(blocks[i]), key, offset) == byte_at(blocks, key, offset),
{
    lemma_touched_one(blocks, i, blocks[i].key, blocks[i].start, blocks[i].end());
    lemma_touched(blocks, blocks[i].key, blocks[i].start, blocks[i].end());
}

/// The next overlapping block to be moved is still where it was.
proof fn lemma_next_present(
    blocks: Seq<Block<usize>>,
    key: usize,
    start: int,
    end: int,
    count: int,
) -> (i: int)
    requires
        well_formed(blocks),
        0 <= count < by_start(blocks.filter(overlapping(key, start, end))).len(),
    ensures
        0 <= i < partly_touched(blocks, key, start, end, count).len(),
        partly_touched(blocks, key, start, end, count)[i] == by_start(
            blocks.filter(overlapping(key, start, end)),
        )[count],
{
    let met = blocks.filter(overlapping(key, start, end));
    let sorted = by_start(met);
    let head = sorted.take(count);
    let rest = blocks.filter(not_among(head));
    let next = sorted[count];
    lemma_filter_well_formed(blocks, overlapping(key, start, end));
    lemma_by_start(met);
    lemma_distinct(sorted);
    lemma_filter_members(blocks, overlapping(key, start, end));
    lemma_filter_members(blocks, not_among(head));
    assert(sorted.contains(next));
    assert(met.contains(next));
    if head.contains(next) {
        let j = choose|j: int| 0 <= j < head.len() && head[j] == next;
        assert(sorted[j] == sorted[count]);
    }
    assert(rest.contains(next));
    let i = choose|i: int| 0 <= i < rest.len() && rest[i] == next;
    assert(partly_touched(blocks, key, start, end, count)[i] == next);
    i
}

/// Returns `counter` advanced by one, held at the largest `u64`.
fn advance(counter: u64) -> (next: u64)
    ensures
        next == advanced(counter, 1),
{
    counter.saturating_add(1)
}

/// Puts `range` into `sorted`, which is in ascending order of start.
fn place_range(
    sorted: &mut Vec<ModelRange>,
    range: ModelRange,
    Ghost(cells): Ghost<Cells>,
    Ghost(base): Ghost<int>,
)
    ensures
        blocks_of(cells, base, final(sorted)@) == placed(
            blocks_of(cells, base, old(sorted)@),
            block_of(cells, base, range),
        ),
{
    let ghost blocks = blocks_of(cells, base, sorted@);
    let ghost block = block_of(cells, base, range);
    let mut at: usize = sorted.len();
    proof {
        assert(blocks.take(at as int) =~= blocks);
        assert(placed(blocks, block) + blocks.skip(at as int) =~= placed(blocks, block));
    }
    while at > 0 && sorted[at - 1].start > range.start
        invariant
            at <= sorted@.len(),
            blocks == blocks_of(cells, base, sorted@),
            block == block_of(cells, base, range),
            placed(blocks, block) == placed(blocks.take(at as int), block) + blocks.skip(at as int),
        decreases at,
    {
        proof {
            let head = blocks.take(at as int);
            assert(head.last() == blocks[at - 1]);
            assert(blocks[at - 1] == block_of(cells, base, sorted@[at - 1]));
            assert(head.drop_last() =~= blocks.take(at - 1));
            assert(placed(blocks.take(at - 1), block).push(head.last()) + blocks.skip(at as int)
                =~= placed(blocks.take(at - 1), block) + blocks.skip(at - 1));
        }
        at = at - 1;
    }
    proof {
        let head = blocks.take(at as int);
        if at > 0 {
            assert(head.last() == block_of(cells, base, sorted@[at - 1]));
        }
        assert(placed(head, block) == head.push(block));
    }
    sorted.insert(at, range);
    assert(blocks_of(cells, base, sorted@) =~= blocks.take(at as int).push(block) + blocks.skip(
        at as int,
    ));
}

/// Returns a row of empty cells.
fn empty_row() -> (row: Vec<Option<u8>>)
    ensures
        row@.len() == DOMAIN,
        forall|o: int| 0 <= o < DOMAIN ==> (#[trigger] row@[o]) is None,
{
    let mut row: Vec<Option<u8>> = Vec::new();
    let mut offset: usize = 0;
    while offset < DOMAIN
        invariant
            offset <= DOMAIN,
            row@.len() == offset,
            forall|o: int| 0 <= o < offset ==> (#[trigger] row@[o]) is None,
        decreases DOMAIN - offset,
    {
        row.push(None);
        offset = offset + 1;
    }
    row
}

} // verus!
