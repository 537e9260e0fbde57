//! Cache and reference model side by side.
//!
//! [`replay`] decodes a byte string into operations, runs them on a
//! [`RangeStore`] and on a [`Model`], and compares all answers on the way.

use crate::capacity::{CacheCapacity, CacheSnapshot, InsertOutcome, NonZeroUsize};
use crate::effect::lists_gaps;
use crate::error::RangeError;
use crate::laws::law_gaps_are_unique;
use crate::model::{DOMAIN, KEY_COUNT, Model};
use crate::payload::{optional_view, payload_from_vec, payload_slice};
use crate::store::RangeStore;
use crate::view::{are_gaps, byte_at, in_range, Block, CacheView};
use bytes::Bytes;
use std::ops::Range;
use vstd::prelude::*;

verus! {

/// Number of bytes that an operation takes.
pub const OPERATION_BYTES: usize = 6;

/// Largest number of operations of one replay.
pub const MOST_OPERATIONS: usize = 256;

/// An operation on the cache and on the model.
pub enum Operation {
    /// Insert the payload as the bytes of `start..end` under `key`.
    Insert {
        /// Key of the range.
        key: usize,
        /// Start, counted from the base.
        start: usize,
        /// End, counted from the base.
        end: usize,
        /// Number of payload bytes.
        len: usize,
        /// First payload byte.  Each further byte is greater by one.
        seed: u8,
    },
    /// Read `start..end` under `key`.
    Get {
        /// Key of the range.
        key: usize,
        /// Start, counted from the base.
        start: usize,
        /// End, counted from the base.
        end: usize,
    },
    /// List the gaps of `start..end` under `key`.
    Missing {
        /// Key of the range.
        key: usize,
        /// Start, counted from the base.
        start: usize,
        /// End, counted from the base.
        end: usize,
    },
    /// Drop what is cached under `key`.
    Invalidate {
        /// Key to drop.
        key: usize,
    },
    /// Drop everything.
    Clear,
}

/// The capacity policy that a configuration byte stands for.
pub open spec fn configured_limit(configuration: u8) -> Option<nat> {
    if configuration % 2 == 0 {
        None
    } else {
        Some((configuration as nat / 2) % 32 + 1)
    }
}

/// The base that a configuration byte stands for.
pub open spec fn configured_base(configuration: u8) -> usize {
    if configuration < 128 {
        0
    } else {
        (usize::MAX - DOMAIN) as usize
    }
}

/// The length of the payload that `choice` selects for a range of `len` bytes:
/// the right one, one too few, or one too many.
pub open spec fn chosen_length(choice: u8, len: int) -> int {
    if choice % 3 == 0 {
        len
    } else if choice % 3 == 1 {
        if len > 0 {
            len - 1
        } else {
            0
        }
    } else if len <= DOMAIN {
        len + 1
    } else {
        DOMAIN + 1
    }
}

/// The operation that a chunk of bytes stands for.
pub open spec fn decoded(chunk: Seq<u8>) -> Operation {
    let key = (chunk[1] as int % 4) as usize;
    let start = (chunk[2] as int % 33) as usize;
    let end = (chunk[3] as int % 33) as usize;
    if chunk[0] % 5 == 0 {
        Operation::Insert {
            key,
            start,
            end,
            len: chosen_length(
                chunk[4],
                if start <= end {
                    end - start
                } else {
                    0
                },
            ) as usize,
            seed: chunk[5],
        }
    } else if chunk[0] % 5 == 1 {
        Operation::Get { key, start, end }
    } else if chunk[0] % 5 == 2 {
        Operation::Missing { key, start, end }
    } else if chunk[0] % 5 == 3 {
        Operation::Invalidate { key }
    } else {
        Operation::Clear
    }
}

/// The payload of `len` bytes that begins with `seed`.
pub open spec fn payload_of(seed: u8, len: int) -> Seq<u8> {
    Seq::new(len as nat, |i: int| ((seed + i) % 256) as u8)
}

/// The content after an operation.
pub open spec fn stepped(
    content: CacheView<usize>,
    limit: Option<nat>,
    base: int,
    operation: Operation,
) -> CacheView<usize> {
    match operation {
        Operation::Insert { key, start, end, len, seed } => if start <= end && len == end - start {
            content.after_insert(limit, key, base + start, payload_of(seed, len as int))
        } else {
            content
        },
        Operation::Get { key, start, end } => if start <= end {
            content.after_read(key, base + start, base + end)
        } else {
            content
        },
        Operation::Missing { .. } => content,
        Operation::Invalidate { key } => content.after_invalidate(key),
        Operation::Clear => content.after_clear(),
    }
}

/// The content after the first `count` operations that `bytes` stands for.
pub open spec fn replayed(limit: Option<nat>, base: int, bytes: Seq<u8>, count: nat) -> CacheView<
    usize,
>
    decreases count,
{
    if count == 0 {
        CacheView::empty()
    } else {
        stepped(
            replayed(limit, base, bytes, (count - 1) as nat),
            limit,
            base,
            decoded(bytes.subrange(6 * (count - 1), 6 * count as int)),
        )
    }
}

/// How many operations `len` bytes stand for.
pub open spec fn operation_count(len: nat) -> nat {
    if len / 6 <= 256 {
        len / 6
    } else {
        256
    }
}

/// What a replay comes to.
#[derive(Clone, Copy, Debug, PartialEq, Eq)]
pub struct Replay {
    /// Every answer of the cache was that of the model.
    pub agreed: bool,
    /// The state of the cache in the end.
    pub snapshot: CacheSnapshot,
}

/// Decodes a chunk of bytes.
fn decode(chunk: &[u8]) -> (operation: Operation)
    requires
        chunk@.len() == OPERATION_BYTES,
    ensures
        operation == decoded(chunk@),
{
    let key: usize = chunk[1] as usize % KEY_COUNT;
    let start: usize = chunk[2] as usize % (DOMAIN + 1);
    let end: usize = chunk[3] as usize % (DOMAIN + 1);
    let code: u8 = chunk[0] % 5;
    if code == 0 {
        let range_len: usize = if start <= end {
            end - start
        } else {
            0
        };
        let choice: u8 = chunk[4] % 3;
        let len: usize = if choice == 0 {
            range_len
        } else if choice == 1 {
            if range_len > 0 {
                range_len - 1
            } else {
                0
            }
        } else if range_len <= DOMAIN {
            range_len + 1
        } else {
            DOMAIN + 1
        };
        Operation::Insert { key, start, end, len, seed: chunk[5] }
    } else if code == 1 {
        Operation::Get { key, start, end }
    } else if code == 2 {
        Operation::Missing { key, start, end }
    } else if code == 3 {
        Operation::Invalidate { key }
    } else {
        Operation::Clear
    }
}

/// Makes the payload of `len` bytes that begins with `seed`.
fn make_payload(seed: u8, len: usize) -> (payload: Vec<u8>)
    requires
        len <= DOMAIN + 1,
    ensures
        payload@ == payload_of(seed, len as int),
{
    let mut payload: Vec<u8> = Vec::new();
    let mut i: usize = 0;
    while i < len
        invariant
            i <= len <= DOMAIN + 1,
            payload@ == payload_of(seed, i as int),
        decreases len - i,
    {
        let sum: u16 = seed as u16 + i as u16;
        payload.push((sum % 256) as u8);
        i = i + 1;
        assert(payload@ =~= payload_of(seed, i as int));
    }
    payload
}

/// Compares two validation errors.
fn same_error(left: &RangeError, right: &RangeError) -> (same: bool)
    ensures
        same == (*left == *right),
{
    match (left, right) {
        (
            RangeError::ReversedRange { start: a, end: b },
            RangeError::ReversedRange { start: c, end: d },
        ) => *a == *c && *b == *d,
        (
            RangeError::PayloadLengthMismatch { range: a, expected: b, actual: c },
            RangeError::PayloadLengthMismatch { range: d, expected: e, actual: f },
        ) => a.start == d.start && a.end == d.end && *b == *e && *c == *f,
        _ => false,
    }
}

/// Compares the answers to an insertion.
fn same_insert(
    left: &Result<InsertOutcome, RangeError>,
    right: &Result<InsertOutcome, RangeError>,
) -> (same: bool)
    ensures
        same == (*left == *right),
{
    match (left, right) {
        (Ok(a), Ok(b)) => *a == *b,
        (Err(a), Err(b)) => same_error(a, b),
        _ => false,
    }
}

/// Compares bytes.
fn same_bytes(left: &[u8], right: &[u8]) -> (same: bool)
    ensures
        same == (left@ == right@),
{
    if left.len() != right.len() {
        return false;
    }
    let mut i: usize = 0;
    while i < left.len()
        invariant
            i <= left@.len() == right@.len(),
            forall|j: int| 0 <= j < i ==> left@[j] == right@[j],
        decreases left.len() - i,
    {
        if left[i] != right[i] {
            return false;
        }
        i = i + 1;
    }
    assert(left@ =~= right@);
    true
}

/// The answers to a read are the same.
pub open spec fn reads_agree(
    left: Result<Option<Bytes>, RangeError>,
    right: Result<Option<Vec<u8>>, RangeError>,
) -> bool {
    match (left, right) {
        (Ok(a), Ok(b)) => optional_view(a) == match b {
            Some(bytes) => Some(bytes@),
            None => None,
        },
        (Err(a), Err(b)) => a == b,
        _ => false,
    }
}

/// Compares the answers to a read.
fn same_read(
    left: &Result<Option<Bytes>, RangeError>,
    right: &Result<Option<Vec<u8>>, RangeError>,
) -> (same: bool)
    ensures
        same == reads_agree(*left, *right),
{
    match (left, right) {
        (Ok(a), Ok(b)) => match (a, b) {
            (Some(ours), Some(theirs)) => same_bytes(payload_slice(ours), theirs.as_slice()),
            (None, None) => true,
            _ => false,
        },
        (Err(a), Err(b)) => same_error(a, b),
        _ => false,
    }
}

/// Compares lists of ranges.
fn same_ranges(left: &Vec<Range<usize>>, right: &Vec<Range<usize>>) -> (same: bool)
    ensures
        same == (left@ == right@),
{
    if left.len() != right.len() {
        return false;
    }
    let mut i: usize = 0;
    while i < left.len()
        invariant
            i <= left@.len() == right@.len(),
            forall|j: int| 0 <= j < i ==> left@[j] == right@[j],
        decreases left.len() - i,
    {
        if left[i].start != right[i].start || left[i].end != right[i].end {
            return false;
        }
        i = i + 1;
    }
    assert(left@ =~= right@);
    true
}

/// The answers to a question for gaps are the same.
pub open spec fn gaps_agree(
    left: Result<Vec<Range<usize>>, RangeError>,
    right: Result<Vec<Range<usize>>, RangeError>,
) -> bool {
    match (left, right) {
        (Ok(a), Ok(b)) => a@ == b@,
        (Err(a), Err(b)) => a == b,
        _ => false,
    }
}

/// Compares the answers to a question for gaps.
fn same_gaps(
    left: &Result<Vec<Range<usize>>, RangeError>,
    right: &Result<Vec<Range<usize>>, RangeError>,
) -> (same: bool)
    ensures
        same == gaps_agree(*left, *right),
{
    match (left, right) {
        (Ok(a), Ok(b)) => same_ranges(a, b),
        (Err(a), Err(b)) => same_error(a, b),
        _ => false,
    }
}

/// Runs one operation on both and tells whether the answers are the same.
fn run(
    store: &mut RangeStore<usize>,
    model: &mut Model,
    capacity: CacheCapacity,
    operation: Operation,
) -> (agreed: bool)
    requires
        old(store).wf(),
        old(model).wf(),
        old(store)@ == old(model)@,
        old(model).policy() == capacity,
        old(model).origin() <= usize::MAX - DOMAIN,
        within_domain(operation),
    ensures
        final(store).wf(),
        final(model).wf(),
        final(store)@ == final(model)@,
        final(model).policy() == capacity,
        final(model).origin() == old(model).origin(),
        final(store)@ == stepped(
            old(store)@,
            capacity.limit(),
            old(model).origin() as int,
            operation,
        ),
        agreed,
{
    match operation {
        Operation::Insert { key, start, end, len, seed } => {
            let range = model.absolute(start)..model.absolute(end);
            let payload = make_payload(seed, len);
            let ours = store.insert(
                capacity,
                key,
                range,
                payload_from_vec(make_payload(seed, len)),
            );
            let theirs = model.insert(key, start, end, payload.as_slice());
            same_insert(&ours, &theirs)
        },
        Operation::Get { key, start, end } => {
            let range = model.absolute(start)..model.absolute(end);
            let ours = store.get(&key, range);
            let theirs = model.get(key, start, end);
            same_read(&ours, &theirs)
        },
        Operation::Missing { key, start, end } => {
            let range = model.absolute(start)..model.absolute(end);
            let ghost asked = range;
            let ours = store.missing_ranges(&key, range);
            let theirs = model.missing(key, start, end);
            proof {
                lemma_gaps_agree(store@, key, asked, ours, theirs);
            }
            same_gaps(&ours, &theirs)
        },
        Operation::Invalidate { key } => {
            let ours = store.invalidate(&key);
            let theirs = model.invalidate(key);
            ours == theirs
        },
        Operation::Clear => {
            let ours = store.clear();
            let theirs = model.clear();
            ours == theirs
        },
    }
}

/// The operation is one that the model covers.
pub open spec fn within_domain(operation: Operation) -> bool {
    match operation {
        Operation::Insert { key, start, end, len, .. } => key < KEY_COUNT && start <= DOMAIN && end
            <= DOMAIN && len <= DOMAIN + 1,
        Operation::Get { key, start, end } => key < KEY_COUNT && start <= DOMAIN && end <= DOMAIN,
        Operation::Missing { key, start, end } => key < KEY_COUNT && start <= DOMAIN && end
            <= DOMAIN,
        Operation::Invalidate { key } => key < KEY_COUNT,
        Operation::Clear => true,
    }
}

/// Two right answers to a question for gaps are the same.
proof fn lemma_gaps_agree(
    content: CacheView<usize>,
    key: usize,
    range: Range<usize>,
    left: Result<Vec<Range<usize>>, RangeError>,
    right: Result<Vec<Range<usize>>, RangeError>,
)
    requires
        lists_gaps(content, key, range, left),
        lists_gaps(content, key, range, right),
    ensures
        gaps_agree(left, right),
{
    if left is Ok && right is Ok {
        law_gaps_are_unique(
            left->Ok_0@,
            right->Ok_0@,
            content.blocks,
            key,
            range.start as int,
            range.end as int,
        );
    }
}

/// Both cache the same offsets of `start..end` under `key`.
pub open spec fn same_coverage(
    left: Seq<Block<usize>>,
    right: Seq<Block<usize>>,
    key: usize,
    start: int,
    end: int,
) -> bool {
    forall|offset: int|
        start <= offset < end ==> ((#[trigger] byte_at(left, key, offset)) is None <==> byte_at(
            right,
            key,
            offset,
        ) is None)
}

/// A store with `capacity` and a model look the same: their snapshots are equal,
/// and they cache the same offsets of the domain under every key.
pub open spec fn states_agree(
    store: RangeStore<usize>,
    model: Model,
    capacity: CacheCapacity,
) -> bool {
    &&& store@.snapshot(capacity) == model@.snapshot(model.policy())
    &&& forall|key: usize|
        key < KEY_COUNT ==> #[trigger] same_coverage(
            store@.blocks,
            model@.blocks,
            key,
            model.origin() as int,
            model.origin() + DOMAIN,
        )
}

/// The gaps of a range in two contents are the same exactly if both cache the
/// same offsets of it.
proof fn lemma_gaps_compared(
    left: CacheView<usize>,
    right: CacheView<usize>,
    key: usize,
    range: Range<usize>,
    ours: Result<Vec<Range<usize>>, RangeError>,
    theirs: Result<Vec<Range<usize>>, RangeError>,
)
    requires
        range.start <= range.end,
        lists_gaps(left, key, range, ours),
        lists_gaps(right, key, range, theirs),
    ensures
        gaps_agree(ours, theirs) == same_coverage(
            left.blocks,
            right.blocks,
            key,
            range.start as int,
            range.end as int,
        ),
{
    let start = range.start as int;
    let end = range.end as int;
    let a = ours->Ok_0@;
    let b = theirs->Ok_0@;
    if same_coverage(left.blocks, right.blocks, key, start, end) {
        assert forall|offset: int| start <= offset < end implies ((#[trigger] byte_at(
            left.blocks,
            key,
            offset,
        )) is None <==> exists|i: int| 0 <= i < b.len() && in_range(#[trigger] b[i], offset)) by {
            assert(byte_at(right.blocks, key, offset) is None <==> exists|i: int|
                0 <= i < b.len() && in_range(#[trigger] b[i], offset));
        }
        assert(are_gaps(b, left.blocks, key, start, end));
        law_gaps_are_unique(a, b, left.blocks, key, start, end);
    }
    if a == b {
        assert forall|offset: int| start <= offset < end implies ((#[trigger] byte_at(
            left.blocks,
            key,
            offset,
        )) is None <==> byte_at(right.blocks, key, offset) is None) by {}
    }
}

/// Compares the states of both: the snapshots, and the gaps of every key.
fn compare(store: &RangeStore<usize>, model: &Model, capacity: CacheCapacity) -> (agreed: bool)
    requires
        store.wf(),
        model.wf(),
        model.origin() <= usize::MAX - DOMAIN,
    ensures
        agreed == states_agree(*store, *model, capacity),
{
    let mut agreed: bool = store.snapshot(capacity) == model.snapshot();
    let mut key: usize = 0;
    while key < KEY_COUNT
        invariant
            store.wf(),
            model.wf(),
            model.origin() <= usize::MAX - DOMAIN,
            key <= KEY_COUNT,
            agreed == (store@.snapshot(capacity) == model@.snapshot(model.policy()) && forall|
                k: usize,
            |
                k < key ==> #[trigger] same_coverage(
                    store@.blocks,
                    model@.blocks,
                    k,
                    model.origin() as int,
                    model.origin() + DOMAIN,
                )),
        decreases KEY_COUNT - key,
    {
        let range = model.absolute(0)..model.absolute(DOMAIN);
        let ghost asked = range;
        let ours = store.missing_ranges(&key, range);
        let theirs = model.missing(key, 0, DOMAIN);
        proof {
            lemma_gaps_compared(store@, model@, key, asked, ours, theirs);
        }
        let same: bool = same_gaps(&ours, &theirs);
        agreed = agreed && same;
        key = key + 1;
    }
    agreed
}

/// Runs the operations that `data` stands for on a cache and on a model.
///
/// The first byte is the configuration, and each chunk of bytes after it is an
/// operation.  No bytes, no replay.
pub fn replay(data: &[u8]) -> (outcome: Option<Replay>)
    ensures
        match outcome {
            None => data@.len() == 0,
            Some(replay) => {
                let limit = configured_limit(data@[0]);
                let base = configured_base(data@[0]) as int;
                let count = operation_count((data@.len() - 1) as nat);
                &&& data@.len() > 0
                &&& replay.agreed
                &&& replay.snapshot.capacity.limit() == limit
                &&& replay.snapshot == replayed(limit, base, data@.skip(1), count).snapshot(
                    replay.snapshot.capacity,
                )
            },
        },
{
    if data.len() == 0 {
        return None;
    }
    let configuration: u8 = data[0];
    let capacity = if configuration % 2 == 0 {
        CacheCapacity::Unbounded
    } else {
        match NonZeroUsize::new((configuration / 2) as usize % DOMAIN + 1) {
            Some(bytes) => CacheCapacity::Bounded(bytes),
            None => CacheCapacity::Unbounded,
        }
    };
    let base: usize = if configuration < 128 {
        0
    } else {
        usize::MAX - DOMAIN
    };
    let ghost limit = configured_limit(configuration);
    let ghost bytes = data@.skip(1);
    assert(capacity.limit() == limit);
    let mut store: RangeStore<usize> = RangeStore::new();
    let mut model = Model::new(base, capacity);
    let mut agreed: bool = true;
    let all: usize = (data.len() - 1) / OPERATION_BYTES;
    let count: usize = if all <= MOST_OPERATIONS {
        all
    } else {
        MOST_OPERATIONS
    };
    let mut i: usize = 0;
    while i < count
        invariant
            i <= count <= 256,
            1 + 6 * count <= data@.len(),
            bytes == data@.skip(1),
            store.wf(),
            model.wf(),
            store@ == model@,
            model.policy() == capacity,
            model.origin() == base <= usize::MAX - DOMAIN,
            capacity.limit() == limit,
            store@ == replayed(limit, base as int, bytes, i as nat),
            agreed,
        decreases count - i,
    {
        let from: usize = 1 + OPERATION_BYTES * i;
        let to: usize = from + OPERATION_BYTES;
        let chunk = vstd::slice::slice_subrange(data, from, to);
        assert(chunk@ =~= bytes.subrange(6 * i as int, 6 * (i + 1)));
        let operation = decode(chunk);
        let same: bool = run(&mut store, &mut model, capacity, operation);
        agreed = agreed && same && compare(&store, &model, capacity);
        i = i + 1;
    }
    Some(Replay { agreed, snapshot: store.snapshot(capacity) })
}

} // verus!
