//! The cache for one owner at a time.
//!
//! [`RangeStore`] keeps the cached blocks in one list, the least recently used
//! first, so that its view is that list.

use crate::capacity::{CacheCapacity, CacheSnapshot, InsertOutcome, Invalidation};
use crate::effect::{clears, inserts, invalidates, lists_gaps, reads, reports};
use crate::error::{check_payload, check_range, RangeError};
use crate::key::CacheKey;
use crate::lemmas::{
    lemma_absent, lemma_admitted_well_formed, lemma_after_block, lemma_byte_at, lemma_filter_agree,
    lemma_filter_well_formed, lemma_gaps_extended, lemma_gaps_pushed, lemma_holder, lemma_keys_push,
    lemma_left_side, lemma_merged_end, lemma_merged_start, lemma_no_keys, lemma_one_block,
    lemma_right_side, lemma_skip_well_formed, lemma_spanned, lemma_surplus, lemma_total_add,
    lemma_total_bounds, lemma_total_filter, lemma_total_push, lemma_touched, lemma_untouched,
};
use crate::payload::{optional_view, payload_from_vec, payload_slice, payload_view, slice_payload};
use crate::plan::{is_plan, lemma_plan_pushed, plans, Segment};
use crate::view::{
    absent, admitted, advanced, are_gaps, as_usize, by_start, byte_at, content, keys, merged,
    merged_end, merged_start, not_overlapping, not_owned_by, not_touching, overlapping, owned_by,
    placed, resident, surplus, total, touched, touching, well_formed, Block, CacheView, Stats,
};
use bytes::Bytes;
use std::ops::Range;
use vstd::prelude::*;

verus! {

/// A cached block: the bytes from offset `start` on under `key`.
struct Entry<K> {
    key: K,
    start: usize,
    data: Bytes,
}

/// The block that an entry stands for.
spec fn block_of<K: CacheKey>(entry: Entry<K>) -> Block<K::V> {
    Block { key: entry.key@, start: entry.start as int, bytes: payload_view(entry.data) }
}

/// The blocks that a list of entries stands for.
spec fn blocks_of<K: CacheKey>(entries: Seq<Entry<K>>) -> Seq<Block<K::V>> {
    entries.map_values(|entry: Entry<K>| block_of(entry))
}

impl<K: CacheKey> Entry<K> {
    /// Offset just past the last byte.
    fn end(&self) -> (end: usize)
        requires
            block_of(*self).in_domain(),
        ensures
            end == block_of(*self).end(),
    {
        self.start + self.data.len()
    }
}

/// Returns `counter` advanced by one, held at the largest `u64`.
fn advance(counter: u64) -> (next: u64)
    ensures
        next == advanced(counter, 1),
{
    if counter < u64::MAX {
        counter + 1
    } else {
        counter
    }
}

/// Returns `count` as a `usize`, held at the largest `usize`.
fn clamp(count: u128) -> (held: usize)
    ensures
        held == as_usize(count as nat),
{
    if count <= usize::MAX as u128 {
        count as usize
    } else {
        usize::MAX
    }
}

/// Puts `entry` into `sorted`, which is in ascending order of start.
fn place<K: CacheKey>(sorted: &mut Vec<Entry<K>>, entry: Entry<K>)
    ensures
        blocks_of(final(sorted)@) == placed(blocks_of(old(sorted)@), block_of(entry)),
{
    let ghost blocks = blocks_of(sorted@);
    let ghost block = block_of(entry);
    let mut at: usize = sorted.len();
    proof {
        assert(blocks.take(at as int) =~= blocks);
        assert(placed(blocks, block) + blocks.skip(at as int) =~= placed(blocks, block));
    }
    while at > 0 && sorted[at - 1].start > entry.start
        invariant
            at <= sorted@.len(),
            blocks == blocks_of(sorted@),
            block == block_of(entry),
            placed(blocks, block) == placed(blocks.take(at as int), block) + blocks.skip(at as int),
        decreases at,
    {
        proof {
            let head = blocks.take(at as int);
            assert(head.last() == blocks[at - 1]);
            assert(blocks[at - 1] == block_of(sorted@[at - 1]));
            assert(head.drop_last() =~= blocks.take(at - 1));
            assert(placed(blocks.take(at - 1), block).push(head.last()) + blocks.skip(at as int)
                =~= placed(blocks.take(at - 1), block) + blocks.skip(at - 1));
        }
        at = at - 1;
    }
    proof {
        let head = blocks.take(at as int);
        if at > 0 {
            assert(head.last() == block_of(sorted@[at - 1]));
        }
        assert(placed(head, block) == head.push(block));
    }
    sorted.insert(at, entry);
    assert(blocks_of(sorted@) =~= blocks.take(at as int).push(block) + blocks.skip(at as int));
}

/// Appends the bytes of `data` from `from` up to and without `to`.
fn append_part(out: &mut Vec<u8>, data: &Bytes, from: usize, to: usize)
    requires
        from <= to <= payload_view(*data).len(),
    ensures
        final(out)@ == old(out)@ + payload_view(*data).subrange(from as int, to as int),
{
    let part = slice_payload(data, from, to);
    out.extend_from_slice(payload_slice(&part));
    assert(out@ =~= old(out)@ + payload_view(*data).subrange(from as int, to as int));
}

/// A sparse byte-range cache without a lock of its own.
///
/// The capacity policy is an argument of the operations that enforce or report
/// it.
pub struct RangeStore<K: CacheKey> {
    entries: Vec<Entry<K>>,
    resident: u128,
    stats: Stats,
}

impl<K: CacheKey> View for RangeStore<K> {
    type V = CacheView<K::V>;

    closed spec fn view(&self) -> CacheView<K::V> {
        CacheView { blocks: blocks_of(self.entries@), stats: self.stats }
    }
}

impl<K: CacheKey> RangeStore<K> {
    /// The byte count is that of the view.
    pub closed spec fn counted(&self) -> bool {
        self.resident == total(self@.blocks)
    }

    /// The view is well-formed and its bytes are counted.
    pub open spec fn wf(&self) -> bool {
        self@.wf() && self.counted()
    }

    /// Creates an empty store.
    pub fn new() -> (store: Self)
        ensures
            store.wf(),
            store@ == CacheView::<K::V>::empty(),
    {
        let store = RangeStore {
            entries: Vec::new(),
            resident: 0,
            stats: Stats {
                hits: 0,
                partial_hits: 0,
                misses: 0,
                insertions: 0,
                rejections: 0,
                evictions: 0,
            },
        };
        assert(store@.blocks =~= Seq::empty());
        store
    }

    /// Finds the block that spans `start..end` under `key`.
    fn spanning(&self, key: &K, start: usize, end: usize) -> (found: Option<usize>)
        requires
            self.wf(),
            start < end,
        ensures
            found matches Some(i) ==> {
                &&& i < self@.blocks.len()
                &&& self@.blocks[i as int].key == key@
                &&& self@.blocks[i as int].start <= start < end <= self@.blocks[i as int].end()
            },
            found is Some <==> resident(self@.blocks, key@, start as int, end as int),
    {
        let ghost blocks = self@.blocks;
        let mut i: usize = 0;
        while i < self.entries.len()
            invariant
                self.wf(),
                start < end,
                blocks == self@.blocks,
                i <= blocks.len(),
                blocks.len() == self.entries@.len(),
                forall|j: int|
                    0 <= j < i ==> !((#[trigger] blocks[j]).key == key@ && blocks[j].start <= start
                        && end <= blocks[j].end()),
            decreases self.entries.len() - i,
        {
            let entry = &self.entries[i];
            assert(blocks[i as int] == block_of(*entry));
            if entry.start <= start && end <= entry.end() && entry.key.same_key(key) {
                proof {
                    lemma_spanned(blocks, i as int, key@, start as int, end as int);
                }
                return Some(i);
            }
            i = i + 1;
        }
        proof {
            if resident(blocks, key@, start as int, end as int) {
                let j = lemma_one_block(blocks, key@, start as int, end as int);
            }
        }
        None
    }

    /// Finds the block that holds `offset` under `key`.
    fn holder(&self, key: &K, offset: usize) -> (found: Option<usize>)
        requires
            self.wf(),
        ensures
            found matches Some(i) ==> i < self@.blocks.len() && self@.blocks[i as int].holds(
                key@,
                offset as int,
            ),
            found is Some <==> byte_at(self@.blocks, key@, offset as int) is Some,
    {
        let ghost blocks = self@.blocks;
        let mut i: usize = 0;
        while i < self.entries.len()
            invariant
                self.wf(),
                blocks == self@.blocks,
                i <= blocks.len(),
                blocks.len() == self.entries@.len(),
                forall|j: int| 0 <= j < i ==> !(#[trigger] blocks[j]).holds(key@, offset as int),
            decreases self.entries.len() - i,
        {
            let entry = &self.entries[i];
            assert(blocks[i as int] == block_of(*entry));
            if entry.start <= offset && offset < entry.end() && entry.key.same_key(key) {
                proof {
                    lemma_byte_at(blocks, i as int, key@, offset as int);
                }
                return Some(i);
            }
            i = i + 1;
        }
        None
    }

    /// Finds the block that reaches `start` under `key` from the left.
    fn joining_left(&self, key: &K, start: usize) -> (found: Option<usize>)
        requires
            self.wf(),
        ensures
            match found {
                Some(i) => {
                    &&& i < self@.blocks.len()
                    &&& self@.blocks[i as int].joins_left(key@, start as int)
                    &&& merged_start(self@.blocks, key@, start as int)
                        == self@.blocks[i as int].start
                },
                None => merged_start(self@.blocks, key@, start as int) == start,
            },
    {
        let ghost blocks = self@.blocks;
        let mut i: usize = 0;
        while i < self.entries.len()
            invariant
                self.wf(),
                blocks == self@.blocks,
                i <= blocks.len(),
                blocks.len() == self.entries@.len(),
                forall|j: int| 0 <= j < i ==> !(#[trigger] blocks[j]).joins_left(key@, start as int),
            decreases self.entries.len() - i,
        {
            let entry = &self.entries[i];
            assert(blocks[i as int] == block_of(*entry));
            if entry.start < start && start <= entry.end() && entry.key.same_key(key) {
                proof {
                    lemma_merged_start(blocks, i as int, key@, start as int);
                }
                return Some(i);
            }
            i = i + 1;
        }
        None
    }

    /// Finds the block that carries on from `end` under `key` to the right.
    fn joining_right(&self, key: &K, end: usize) -> (found: Option<usize>)
        requires
            self.wf(),
        ensures
            match found {
                Some(i) => {
                    &&& i < self@.blocks.len()
                    &&& self@.blocks[i as int].joins_right(key@, end as int)
                    &&& merged_end(self@.blocks, key@, end as int) == self@.blocks[i as int].end()
                },
                None => merged_end(self@.blocks, key@, end as int) == end,
            },
    {
        let ghost blocks = self@.blocks;
        let mut i: usize = 0;
        while i < self.entries.len()
            invariant
                self.wf(),
                blocks == self@.blocks,
                i <= blocks.len(),
                blocks.len() == self.entries@.len(),
                forall|j: int| 0 <= j < i ==> !(#[trigger] blocks[j]).joins_right(key@, end as int),
            decreases self.entries.len() - i,
        {
            let entry = &self.entries[i];
            assert(blocks[i as int] == block_of(*entry));
            if entry.start <= end && end < entry.end() && entry.key.same_key(key) {
                proof {
                    lemma_merged_end(blocks, i as int, key@, end as int);
                }
                return Some(i);
            }
            i = i + 1;
        }
        None
    }

    /// Takes out the blocks that overlap or are adjacent to `low..high` under
    /// `key`, in the order in which they are kept.
    fn detach(&mut self, key: &K, low: usize, high: usize) -> (gone: Vec<Entry<K>>)
        requires
            old(self).wf(),
        ensures
            final(self).wf(),
            final(self)@.blocks == old(self)@.blocks.filter(
                not_touching(key@, low as int, high as int),
            ),
            final(self)@.stats == old(self)@.stats,
            blocks_of(gone@) == old(self)@.blocks.filter(
                touching(key@, low as int, high as int),
            ),
    {
        let ghost all = self@.blocks;
        let ghost stats = self.stats;
        let ghost keep = not_touching(key@, low as int, high as int);
        let ghost take = touching(key@, low as int, high as int);
        let ghost mut seen: int = 0;
        let mut gone: Vec<Entry<K>> = Vec::new();
        let mut i: usize = 0;
        proof {
            reveal(Seq::filter);
            assert(all.take(0) =~= Seq::empty());
            assert(blocks_of(gone@) =~= Seq::empty());
            assert(self@.blocks =~= all.take(0).filter(keep) + all.skip(0));
        }
        while i < self.entries.len()
            invariant
                well_formed(all),
                keep == not_touching(key@, low as int, high as int),
                take == touching(key@, low as int, high as int),
                0 <= seen <= all.len(),
                i == all.take(seen).filter(keep).len(),
                self@.blocks == all.take(seen).filter(keep) + all.skip(seen),
                blocks_of(gone@) == all.take(seen).filter(take),
                self.resident == total(all) - total(all.take(seen).filter(take)),
                self.stats == stats,
            decreases all.len() - seen,
        {
            let ghost before = self@.blocks;
            let ghost kept = all.take(seen).filter(keep);
            let ghost taken = all.take(seen).filter(take);
            let ghost current = all[seen];
            assert(self.entries@.len() == before.len());
            assert(before[i as int] == all[seen]);
            assert(block_of(self.entries@[i as int]) == current);
            proof {
                reveal(Seq::filter);
                assert(all.take(seen + 1).drop_last() =~= all.take(seen));
                assert(all.take(seen + 1).last() == current);
                lemma_total_filter(all.take(seen + 1), keep, take);
                lemma_total_add(all.take(seen + 1), all.skip(seen + 1));
                assert(all.take(seen + 1) + all.skip(seen + 1) =~= all);
                lemma_total_push(taken, current);
            }
            let entry = &self.entries[i];
            if entry.start <= high && low <= entry.end() && entry.key.same_key(key) {
                let entry = self.entries.remove(i);
                self.resident = self.resident - entry.data.len() as u128;
                gone.push(entry);
                assert(self@.blocks =~= before.remove(i as int));
                assert(before.remove(i as int) =~= kept + all.skip(seen + 1));
                assert(blocks_of(gone@) =~= taken.push(current));
            } else {
                i = i + 1;
                assert(self@.blocks =~= kept.push(current) + all.skip(seen + 1));
            }
            proof {
                seen = seen + 1;
            }
        }
        proof {
            assert(seen == all.len());
            assert(all.take(seen) =~= all);
            assert(all.skip(seen) =~= Seq::empty());
            assert(self@.blocks =~= all.filter(keep));
            lemma_filter_well_formed(all, keep);
            lemma_total_filter(all, keep, take);
        }
        gone
    }

    /// Makes the blocks that overlap `start..end` under `key` the most recently
    /// used, in ascending order of start, and tells whether there are any.
    fn touch(&mut self, key: &K, start: usize, end: usize) -> (met_any: bool)
        requires
            old(self).wf(),
            start < end,
        ensures
            final(self).wf(),
            final(self)@.blocks == touched(old(self)@.blocks, key@, start as int, end as int),
            final(self)@.stats == old(self)@.stats,
            met_any == !absent(old(self)@.blocks, key@, start as int, end as int),
    {
        let ghost all = self@.blocks;
        let resident: u128 = self.resident;
        let met = self.detach(key, start + 1, end - 1);
        proof {
            assert(not_touching(key@, start + 1, end - 1) =~= not_overlapping(
                key@,
                start as int,
                end as int,
            ));
            assert(touching(key@, start + 1, end - 1) =~= overlapping(
                key@,
                start as int,
                end as int,
            ));
        }
        let met_any: bool = met.len() > 0;
        proof {
            lemma_absent(all, key@, start as int, end as int);
        }
        let ghost rest = self@.blocks;
        let ghost met_blocks = blocks_of(met@);
        let mut sorted: Vec<Entry<K>> = Vec::new();
        assert(blocks_of(sorted@) =~= by_start(met_blocks.take(0)));
        let ghost entries = met@;
        for entry in it: met.into_iter()
            invariant
                it.seq() == entries,
                met_blocks == blocks_of(entries),
                blocks_of(sorted@) == by_start(met_blocks.take(it.index() as int)),
        {
            proof {
                let done = it.index() as int;
                assert(met_blocks[done] == block_of(entry));
                assert(met_blocks.take(done + 1).drop_last() =~= met_blocks.take(done));
                assert(met_blocks.take(done + 1).last() == block_of(entry));
            }
            place(&mut sorted, entry);
        }
        proof {
            assert(met_blocks.take(met_blocks.len() as int) =~= met_blocks);
            lemma_touched(all, key@, start as int, end as int);
        }
        self.entries.append(&mut sorted);
        proof {
            assert(self@.blocks =~= rest + by_start(met_blocks));
            assert(self@.blocks == touched(all, key@, start as int, end as int));
        }
        self.resident = resident;
        met_any
    }

    /// Returns the bytes of `start..end` under `key` if one block holds all of
    /// them.
    fn peek(&self, key: &K, start: usize, end: usize) -> (hit: Option<Bytes>)
        requires
            self.wf(),
            start < end,
        ensures
            optional_view(hit) == self@.read(key@, start as int, end as int),
    {
        match self.spanning(key, start, end) {
            Some(i) => {
                let entry = &self.entries[i];
                proof {
                    assert(self@.blocks[i as int] == block_of(*entry));
                    lemma_spanned(self@.blocks, i as int, key@, start as int, end as int);
                }
                Some(slice_payload(&entry.data, start - entry.start, end - entry.start))
            },
            None => None,
        }
    }

    /// Records a read of `start..end` under `key`, which is a hit if `full`:
    /// moves the blocks that it overlaps to the end and counts it.
    fn record(&mut self, key: &K, start: usize, end: usize, full: bool)
        requires
            old(self).wf(),
            start <= end,
            full == resident(old(self)@.blocks, key@, start as int, end as int),
        ensures
            final(self).wf(),
            final(self)@ == old(self)@.after_read(key@, start as int, end as int),
    {
        let met_any: bool = if start < end {
            self.touch(key, start, end)
        } else {
            proof {
                lemma_untouched(self@.blocks, key@, start as int);
            }
            false
        };
        if full {
            self.stats.hits = advance(self.stats.hits);
        } else if met_any {
            self.stats.partial_hits = advance(self.stats.partial_hits);
        } else {
            self.stats.misses = advance(self.stats.misses);
        }
    }

    /// Returns the bytes of `range` under `key` if all of them are cached.
    ///
    /// A hit shares the memory of the cached block.  The blocks that the range
    /// overlaps become the most recently used.
    pub fn get(&mut self, key: &K, range: Range<usize>) -> (found: Result<Option<Bytes>, RangeError>)
        requires
            old(self).wf(),
        ensures
            final(self).wf(),
            reads(old(self)@, final(self)@, key@, range, found),
    {
        check_range(&range)?;
        let hit: Option<Bytes> = if range.start == range.end {
            let nothing = Bytes::new();
            assert(content(self@.blocks, key@, range.start as int, range.end as int)
                =~= payload_view(nothing));
            Some(nothing)
        } else {
            self.peek(key, range.start, range.end)
        };
        self.record(key, range.start, range.end, hit.is_some());
        Ok(hit)
    }

    /// Evicts the least recently used blocks until at most `limit` bytes stay.
    fn evict(&mut self, limit: usize)
        requires
            old(self).wf(),
        ensures
            final(self).wf(),
            final(self)@ == old(self)@.enforced(Some(limit as nat)),
    {
        let ghost all = self@.blocks;
        let ghost evictions = self.stats.evictions;
        let ghost mut count: nat = 0;
        assert(all.skip(0) =~= all);
        while self.resident > limit as u128
            invariant
                self.wf(),
                well_formed(all),
                count <= all.len(),
                self@.blocks == all.skip(count as int),
                surplus(all, limit as nat) == count + surplus(self@.blocks, limit as nat),
                self.stats == (Stats {
                    evictions: advanced(evictions, count),
                    ..old(self).stats
                }),
            decreases self.entries.len(),
        {
            let ghost blocks = self@.blocks;
            assert(self.entries@.len() == blocks.len());
            assert(blocks.len() > 0);
            let entry = self.entries.remove(0);
            proof {
                assert(block_of(entry) == blocks[0]);
                assert(self@.blocks =~= blocks.drop_first());
                assert(seq![blocks[0]] + blocks.drop_first() =~= blocks);
                lemma_total_add(seq![blocks[0]], blocks.drop_first());
                lemma_total_push(Seq::empty(), blocks[0]);
                assert(Seq::empty().push(blocks[0]) =~= seq![blocks[0]]);
                assert(blocks.drop_first() =~= all.skip(count as int + 1));
                lemma_skip_well_formed(all, count as int + 1);
                count = count + 1;
            }
            self.resident = self.resident - entry.data.len() as u128;
            self.stats.evictions = advance(self.stats.evictions);
        }
        proof {
            assert(surplus(self@.blocks, limit as nat) == 0);
        }
    }

    /// Evicts the least recently used blocks until the rest respects
    /// `capacity`.
    pub fn enforce(&mut self, capacity: CacheCapacity)
        requires
            old(self).wf(),
        ensures
            final(self).wf(),
            final(self)@ == old(self)@.enforced(capacity.limit()),
            final(self)@.fits(capacity.limit()),
    {
        match capacity {
            CacheCapacity::Bounded(bytes) => {
                self.evict(bytes.get());
                proof {
                    lemma_surplus(old(self)@.blocks, bytes.value() as nat);
                }
            },
            CacheCapacity::Unbounded => {},
        }
    }

    /// Joins `payload`, which starts at `start`, with the bytes before it of the
    /// block at `left` and the bytes after it of the block at `right`.
    fn combine(
        &self,
        Ghost(key): Ghost<K::V>,
        left: Option<usize>,
        right: Option<usize>,
        start: usize,
        payload: Bytes,
    ) -> (whole: Bytes)
        requires
            self.wf(),
            start + payload_view(payload).len() <= usize::MAX,
            match left {
                Some(i) => {
                    &&& i < self@.blocks.len()
                    &&& self@.blocks[i as int].joins_left(key, start as int)
                },
                None => merged_start(self@.blocks, key, start as int) == start,
            },
            match right {
                Some(i) => {
                    &&& i < self@.blocks.len()
                    &&& self@.blocks[i as int].joins_right(
                        key,
                        start + payload_view(payload).len(),
                    )
                },
                None => merged_end(self@.blocks, key, start + payload_view(payload).len()) == start
                    + payload_view(payload).len(),
            },
        ensures
            payload_view(whole) == merged(
                self@.blocks,
                key,
                start as int,
                payload_view(payload),
            ).bytes,
    {
        let ghost blocks = self@.blocks;
        let ghost added = payload_view(payload);
        let end: usize = start + payload.len();
        let ghost first = merged_start(blocks, key, start as int);
        let ghost last = merged_end(blocks, key, end as int);
        let ghost goal = merged(blocks, key, start as int, added).bytes;
        if left.is_none() && right.is_none() {
            assert(goal =~= added);
            return payload;
        }
        let mut whole: Vec<u8> = Vec::new();
        let ghost mut before: Seq<u8> = Seq::empty();
        let ghost mut after: Seq<u8> = Seq::empty();
        if let Some(i) = left {
            let entry = &self.entries[i];
            assert(blocks[i as int] == block_of(*entry));
            append_part(&mut whole, &entry.data, 0, start - entry.start);
            proof {
                lemma_merged_start(blocks, i as int, key, start as int);
                lemma_spanned(blocks, i as int, key, first, start as int);
                before = blocks[i as int].bytes.subrange(0, start - first);
                assert(whole@ =~= before);
            }
        }
        assert(before == content(blocks, key, first, start as int));
        append_part(&mut whole, &payload, 0, payload.len());
        assert(whole@ =~= before + added);
        if let Some(i) = right {
            let entry = &self.entries[i];
            assert(blocks[i as int] == block_of(*entry));
            append_part(&mut whole, &entry.data, end - entry.start, entry.data.len());
            proof {
                lemma_merged_end(blocks, i as int, key, end as int);
                lemma_spanned(blocks, i as int, key, end as int, last);
                after = blocks[i as int].bytes.subrange(
                    end - blocks[i as int].start,
                    blocks[i as int].bytes.len() as int,
                );
            }
        }
        assert(after == content(blocks, key, end as int, last));
        assert(whole@ =~= before + added + after);
        proof {
            assert forall|i: int| 0 <= i < goal.len() implies goal[i] == #[trigger] whole@[i] by {
                if i < before.len() {
                    assert(before[i] == content(blocks, key, first, start as int)[i]);
                } else if i >= before.len() + added.len() {
                    let j = i - before.len() - added.len();
                    assert(after[j] == content(blocks, key, end as int, last)[j]);
                }
            }
            assert(goal =~= whole@);
        }
        payload_from_vec(whole)
    }

    /// Adds the bytes of `range` under `key`.
    ///
    /// The payload replaces what is cached of its range, keeps what is cached
    /// outside it, and merges with the blocks that it overlaps or is adjacent
    /// to.  The merged block is the most recently used.  A range that is cached
    /// already is left alone, and so is every block if the merged block could
    /// not respect `capacity`.
    pub fn insert(
        &mut self,
        capacity: CacheCapacity,
        key: K,
        range: Range<usize>,
        payload: Bytes,
    ) -> (inserted: Result<InsertOutcome, RangeError>)
        requires
            old(self).wf(),
        ensures
            final(self).wf(),
            inserts(
                old(self)@,
                final(self)@,
                capacity.limit(),
                key@,
                range,
                payload_view(payload),
                inserted,
            ),
    {
        check_payload(&range, payload.len())?;
        let start: usize = range.start;
        let end: usize = range.end;
        let ghost blocks = self@.blocks;
        let ghost added = payload_view(payload);
        let ghost limit = capacity.limit();
        if start == end {
            return Ok(InsertOutcome::AlreadyCovered);
        }
        if self.spanning(&key, start, end).is_some() {
            return Ok(InsertOutcome::AlreadyCovered);
        }
        let left = self.joining_left(&key, start);
        let right = self.joining_right(&key, end);
        proof {
            lemma_left_side(blocks, key@, start as int);
            lemma_right_side(blocks, key@, end as int);
            lemma_admitted_well_formed(blocks, key@, start as int, added);
        }
        let first: usize = match left {
            Some(i) => {
                assert(blocks[i as int] == block_of(self.entries@[i as int]));
                self.entries[i].start
            },
            None => start,
        };
        let last: usize = match right {
            Some(i) => {
                assert(blocks[i as int] == block_of(self.entries@[i as int]));
                self.entries[i].end()
            },
            None => end,
        };
        let ghost block = merged(blocks, key@, start as int, added);
        assert(block.bytes.len() == last - first);
        if let CacheCapacity::Bounded(bytes) = capacity {
            if last - first > bytes.get() {
                self.stats.rejections = advance(self.stats.rejections);
                return Ok(InsertOutcome::TooLarge);
            }
        }
        let data = self.combine(Ghost(key@), left, right, start, payload);
        self.detach(&key, start, end);
        let ghost kept = self@.blocks;
        proof {
            lemma_total_bounds(kept);
            assert(kept.len() == self.entries.len());
            assert(kept.len() * usize::MAX + usize::MAX <= u128::MAX) by (nonlinear_arith)
                requires
                    kept.len() <= usize::MAX,
                    usize::MAX <= 0xffff_ffff_ffff_ffff,
            ;
            lemma_total_push(kept, block);
        }
        self.resident = self.resident + data.len() as u128;
        self.entries.push(Entry { key, start: first, data });
        self.stats.insertions = advance(self.stats.insertions);
        assert(self@.blocks =~= admitted(blocks, key@, start as int, added));
        self.enforce(capacity);
        Ok(InsertOutcome::Inserted)
    }

    /// Finds where the gap that begins at `cursor` under `key` ends, no further
    /// than `end`.
    fn gap_end(&self, key: &K, cursor: usize, end: usize) -> (stop: usize)
        requires
            self.wf(),
            cursor < end,
            byte_at(self@.blocks, key@, cursor as int) is None,
        ensures
            cursor < stop <= end,
            absent(self@.blocks, key@, cursor as int, stop as int),
            stop < end ==> byte_at(self@.blocks, key@, stop as int) is Some,
    {
        let ghost blocks = self@.blocks;
        let mut stop: usize = end;
        let mut i: usize = 0;
        while i < self.entries.len()
            invariant
                self.wf(),
                blocks == self@.blocks,
                blocks.len() == self.entries@.len(),
                i <= blocks.len(),
                cursor < stop <= end,
                forall|j: int|
                    0 <= j < i && (#[trigger] blocks[j]).key == key@ ==> blocks[j].start <= cursor
                        || stop <= blocks[j].start,
                stop < end ==> byte_at(blocks, key@, stop as int) is Some,
            decreases self.entries.len() - i,
        {
            let entry = &self.entries[i];
            assert(blocks[i as int] == block_of(*entry));
            if cursor < entry.start && entry.start < stop && entry.key.same_key(key) {
                proof {
                    lemma_byte_at(blocks, i as int, key@, entry.start as int);
                }
                stop = entry.start;
            }
            i = i + 1;
        }
        proof {
            assert forall|offset: int| cursor <= offset < stop implies (#[trigger] byte_at(
                blocks,
                key@,
                offset,
            )) is None by {
                if byte_at(blocks, key@, offset) is Some {
                    let j = lemma_holder(blocks, key@, offset);
                    assert(blocks[j].start <= cursor);
                    lemma_byte_at(blocks, j, key@, cursor as int);
                }
            }
        }
        stop
    }

    /// Lists the parts of `range` that are not cached under `key`.
    pub fn missing_ranges(&self, key: &K, range: Range<usize>) -> (found: Result<
        Vec<Range<usize>>,
        RangeError,
    >)
        requires
            self.wf(),
        ensures
            lists_gaps(self@, key@, range, found),
    {
        check_range(&range)?;
        let ghost blocks = self@.blocks;
        let start: usize = range.start;
        let end: usize = range.end;
        let mut gaps: Vec<Range<usize>> = Vec::new();
        let mut cursor: usize = start;
        while cursor < end
            invariant
                self.wf(),
                blocks == self@.blocks,
                start <= cursor <= end,
                are_gaps(gaps@, blocks, key@, start as int, cursor as int),
                gaps@.len() > 0 && gaps@.last().end == cursor && cursor < end ==> byte_at(
                    blocks,
                    key@,
                    cursor as int,
                ) is Some,
            decreases end - cursor,
        {
            let ghost before = gaps@;
            match self.holder(key, cursor) {
                Some(i) => {
                    let stop: usize = self.entries[i].end();
                    let next: usize = if stop < end {
                        stop
                    } else {
                        end
                    };
                    proof {
                        assert(blocks[i as int] == block_of(self.entries@[i as int]));
                        lemma_spanned(blocks, i as int, key@, cursor as int, next as int);
                        lemma_gaps_extended(
                            before,
                            blocks,
                            key@,
                            start as int,
                            cursor as int,
                            next as int,
                        );
                    }
                    cursor = next;
                },
                None => {
                    let stop: usize = self.gap_end(key, cursor, end);
                    gaps.push(cursor..stop);
                    proof {
                        lemma_gaps_pushed(before, cursor..stop, blocks, key@, start as int);
                    }
                    cursor = stop;
                },
            }
        }
        Ok(gaps)
    }

    /// Cuts `range` into the parts that are cached under `key` and those that
    /// are not, and counts as a read of it.
    pub fn plan(&mut self, key: &K, range: Range<usize>) -> (planned: Result<
        Vec<Segment>,
        RangeError,
    >)
        requires
            old(self).wf(),
        ensures
            final(self).wf(),
            plans(old(self)@, final(self)@, key@, range, planned),
    {
        check_range(&range)?;
        let (segments, full) = self.segments(key, range.start, range.end);
        self.record(key, range.start, range.end, full);
        Ok(segments)
    }

    /// Cuts `start..end` into the parts that are cached under `key` and those
    /// that are not, and tells whether all of it is cached.
    fn segments(&self, key: &K, start: usize, end: usize) -> (cut: (Vec<Segment>, bool))
        requires
            self.wf(),
            start <= end,
        ensures
            is_plan(cut.0@, self@.blocks, key@, start as int, end as int),
            cut.1 == resident(self@.blocks, key@, start as int, end as int),
    {
        let ghost blocks = self@.blocks;
        let mut segments: Vec<Segment> = Vec::new();
        let mut full: bool = true;
        let mut cursor: usize = start;
        while cursor < end
            invariant
                self.wf(),
                blocks == self@.blocks,
                start <= cursor <= end,
                is_plan(segments@, blocks, key@, start as int, cursor as int),
                full == resident(blocks, key@, start as int, cursor as int),
                segments@.len() > 0 && cursor < end ==> (segments@.last().data is Some)
                    == (byte_at(blocks, key@, cursor as int) is None),
            decreases end - cursor,
        {
            let ghost before = segments@;
            let next: usize;
            match self.holder(key, cursor) {
                Some(i) => {
                    let entry = &self.entries[i];
                    assert(blocks[i as int] == block_of(*entry));
                    let stop: usize = entry.end();
                    next = if stop < end {
                        stop
                    } else {
                        end
                    };
                    proof {
                        lemma_spanned(blocks, i as int, key@, cursor as int, next as int);
                        lemma_after_block(blocks, i as int);
                    }
                    let data = slice_payload(&entry.data, cursor - entry.start, next - entry.start);
                    segments.push(Segment { range: cursor..next, data: Some(data) });
                },
                None => {
                    next = self.gap_end(key, cursor, end);
                    segments.push(Segment { range: cursor..next, data: None });
                    assert(byte_at(blocks, key@, cursor as int) is None);
                    full = false;
                },
            }
            proof {
                lemma_plan_pushed(before, segments@.last(), blocks, key@, start as int);
                assert(segments@ =~= before.push(segments@.last()));
                assert(resident(blocks, key@, start as int, next as int) <==> resident(
                    blocks,
                    key@,
                    start as int,
                    cursor as int,
                ) && resident(blocks, key@, cursor as int, next as int));
            }
            cursor = next;
        }
        (segments, full)
    }

    /// Drops every block of `key` and reports how many blocks and bytes that
    /// were.
    pub fn invalidate(&mut self, key: &K) -> (gone: Invalidation)
        requires
            old(self).wf(),
        ensures
            final(self).wf(),
            invalidates(old(self)@, final(self)@, key@, gone),
    {
        let ghost blocks = self@.blocks;
        let before: u128 = self.resident;
        proof {
            lemma_filter_agree(blocks, touching(key@, 0, usize::MAX as int), owned_by(key@));
            lemma_filter_agree(
                blocks,
                not_touching(key@, 0, usize::MAX as int),
                not_owned_by(key@),
            );
            lemma_total_filter(blocks, not_owned_by(key@), owned_by(key@));
        }
        let gone = self.detach(key, 0, usize::MAX);
        assert(blocks_of(gone@).len() == gone@.len());
        Invalidation { ranges: gone.len(), bytes: clamp(before - self.resident) }
    }

    /// Drops every block and reports how many blocks and bytes that were.  The
    /// counters stay.
    pub fn clear(&mut self) -> (gone: Invalidation)
        requires
            old(self).wf(),
        ensures
            final(self).wf(),
            clears(old(self)@, final(self)@, gone),
    {
        assert(self@.blocks.len() == self.entries@.len());
        let gone = Invalidation { ranges: self.entries.len(), bytes: clamp(self.resident) };
        self.entries.clear();
        self.resident = 0;
        assert(self@.blocks =~= Seq::empty());
        gone
    }

    /// Counts the keys that own a block.
    fn key_count(&self) -> (count: usize)
        ensures
            count == keys(self@.blocks).len(),
            count <= self@.blocks.len(),
    {
        let ghost blocks = self@.blocks;
        let mut count: usize = 0;
        let mut i: usize = 0;
        proof {
            assert(blocks.take(0) =~= Seq::empty());
            lemma_no_keys::<K::V>();
        }
        while i < self.entries.len()
            invariant
                blocks == self@.blocks,
                blocks.len() == self.entries@.len(),
                count <= i <= blocks.len(),
                count == keys(blocks.take(i as int)).len(),
            decreases self.entries.len() - i,
        {
            let ghost head = blocks.take(i as int);
            let mut known: bool = false;
            let mut j: usize = 0;
            while j < i && !known
                invariant
                    blocks == self@.blocks,
                    blocks.len() == self.entries@.len(),
                    head == blocks.take(i as int),
                    j <= i < blocks.len(),
                    known ==> exists|k: int|
                        0 <= k < head.len() && (#[trigger] head[k]).key == blocks[i as int].key,
                    !known ==> forall|k: int|
                        0 <= k < j ==> (#[trigger] head[k]).key != blocks[i as int].key,
                decreases i - j,
            {
                assert(blocks[i as int] == block_of(self.entries@[i as int]));
                assert(head[j as int] == block_of(self.entries@[j as int]));
                if self.entries[j].key.same_key(&self.entries[i].key) {
                    known = true;
                }
                j = j + 1;
            }
            proof {
                lemma_keys_push(head, blocks[i as int]);
                assert(blocks.take(i + 1) =~= head.push(blocks[i as int]));
            }
            if !known {
                count = count + 1;
            }
            i = i + 1;
        }
        assert(blocks.take(i as int) =~= blocks);
        count
    }

    /// Reports the state and the statistics.
    pub fn snapshot(&self, capacity: CacheCapacity) -> (report: CacheSnapshot)
        requires
            self.wf(),
        ensures
            reports(self@, capacity, report),
    {
        assert(self@.blocks.len() == self.entries@.len());
        CacheSnapshot {
            capacity,
            resident_bytes: clamp(self.resident),
            keys: self.key_count(),
            ranges: self.entries.len(),
            hits: self.stats.hits,
            partial_hits: self.stats.partial_hits,
            misses: self.stats.misses,
            insertions: self.stats.insertions,
            admissions_rejected_too_large: self.stats.rejections,
            evictions: self.stats.evictions,
        }
    }
}

} // verus!
