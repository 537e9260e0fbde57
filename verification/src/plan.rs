//! Reads that only a part of can be served from the cache.
//!
//! A plan cuts a range into segments.  The bytes of a cached segment are at
//! hand, those of the others have to come from the source.

use crate::error::{range_fault, RangeError};
use crate::payload::{payload_from_vec, payload_slice, payload_view};
use crate::view::{absent, content, resident, Block, CacheView};
use bytes::Bytes;
use std::ops::Range;
use vstd::prelude::*;

verus! {

/// A part of a planned read.
#[derive(Debug)]
pub struct Segment {
    /// The part of the range.
    pub range: Range<usize>,
    /// Its bytes, if they are at hand.
    pub data: Option<Bytes>,
}

impl Segment {
    /// The bytes at hand are those that the cache holds, and the segment has
    /// bytes at hand if the cache holds any.
    pub open spec fn mirrors<Q>(self, blocks: Seq<Block<Q>>, key: Q) -> bool {
        match self.data {
            Some(data) => {
                &&& resident(blocks, key, self.range.start as int, self.range.end as int)
                &&& payload_view(data) == content(
                    blocks,
                    key,
                    self.range.start as int,
                    self.range.end as int,
                )
            },
            None => absent(blocks, key, self.range.start as int, self.range.end as int),
        }
    }

    /// The bytes at hand are those that `source` has for the range.
    pub open spec fn agrees<Q>(self, source: spec_fn(Q, int) -> u8, key: Q) -> bool {
        self.data matches Some(data) && payload_view(data) == excerpt(
            source,
            key,
            self.range.start as int,
            self.range.end as int,
        )
    }
}

/// The bytes that `source` has for `start..end` under `key`.
pub open spec fn excerpt<Q>(source: spec_fn(Q, int) -> u8, key: Q, start: int, end: int) -> Seq<u8> {
    Seq::new((end - start) as nat, |i: int| source(key, start + i))
}

/// The segments are not empty, follow one another without a gap, and together
/// make up `start..end`.
pub open spec fn tiles(segments: Seq<Segment>, start: int, end: int) -> bool {
    &&& forall|i: int|
        0 <= i < segments.len() ==> (#[trigger] segments[i]).range.start < segments[i].range.end
    &&& forall|i: int, j: int|
        #![trigger segments[i], segments[j]]
        0 <= i && j == i + 1 && j < segments.len() ==> segments[i].range.end
            == segments[j].range.start
    &&& segments.len() == 0 ==> start == end
    &&& segments.len() > 0 ==> segments[0].range.start == start && segments.last().range.end == end
}

/// Segments that follow one another differ in whether their bytes are at hand.
pub open spec fn alternate(segments: Seq<Segment>) -> bool {
    forall|i: int, j: int|
        #![trigger segments[i], segments[j]]
        0 <= i && j == i + 1 && j < segments.len() ==> segments[i].data is None
            != segments[j].data is None
}

/// The segments cut `start..end` into what the cache holds and what it does
/// not, each part as long as possible.
pub open spec fn is_plan<Q>(
    segments: Seq<Segment>,
    blocks: Seq<Block<Q>>,
    key: Q,
    start: int,
    end: int,
) -> bool {
    &&& tiles(segments, start, end)
    &&& alternate(segments)
    &&& forall|i: int| 0 <= i < segments.len() ==> (#[trigger] segments[i]).mirrors(blocks, key)
}

/// Planning a read of `range` under `key`, which counts as a read.
pub open spec fn plans<Q>(
    before: CacheView<Q>,
    after: CacheView<Q>,
    key: Q,
    range: Range<usize>,
    answer: Result<Vec<Segment>, RangeError>,
) -> bool {
    match answer {
        Err(fault) => {
            &&& range_fault(range) == Some(fault)
            &&& after == before
        },
        Ok(segments) => {
            &&& range_fault(range) is None
            &&& is_plan(
                segments@,
                before.blocks,
                key,
                range.start as int,
                range.end as int,
            )
            &&& after == before.after_read(key, range.start as int, range.end as int)
        },
    }
}

/// The bytes at hand of all segments, one after the other.
pub open spec fn joined(segments: Seq<Segment>) -> Seq<u8>
    decreases segments.len(),
{
    if segments.len() == 0 {
        Seq::empty()
    } else {
        joined(segments.drop_last()) + payload_view(segments.last().data.unwrap())
    }
}

/// Every segment has its bytes at hand.
pub open spec fn complete(segments: Seq<Segment>) -> bool {
    forall|i: int| 0 <= i < segments.len() ==> (#[trigger] segments[i]).data is Some
}

/// Joins the bytes of all segments, or returns nothing if a segment has none.
///
/// The bytes of a single segment are not copied.
pub fn assemble(segments: &Vec<Segment>) -> (whole: Option<Bytes>)
    ensures
        match whole {
            Some(bytes) => complete(segments@) && payload_view(bytes) == joined(segments@),
            None => !complete(segments@),
        },
{
    let ghost parts = segments@;
    if segments.len() == 1 {
        return match &segments[0].data {
            Some(bytes) => {
                assert(joined(parts.drop_last()) =~= Seq::empty());
                assert(joined(parts) =~= payload_view(*bytes));
                Some(bytes.clone())
            },
            None => None,
        };
    }
    let mut whole: Vec<u8> = Vec::new();
    let mut i: usize = 0;
    assert(joined(parts.take(0)) =~= whole@);
    while i < segments.len()
        invariant
            parts == segments@,
            i <= parts.len(),
            forall|j: int| 0 <= j < i ==> (#[trigger] parts[j]).data is Some,
            whole@ == joined(parts.take(i as int)),
        decreases segments.len() - i,
    {
        match &segments[i].data {
            Some(bytes) => {
                let ghost before = whole@;
                whole.extend_from_slice(payload_slice(bytes));
                proof {
                    assert(whole@ =~= before + payload_view(*bytes));
                    assert(parts.take(i + 1).drop_last() =~= parts.take(i as int));
                    assert(parts.take(i + 1).last() == parts[i as int]);
                }
            },
            None => {
                return None;
            },
        }
        i = i + 1;
    }
    assert(parts.take(i as int) =~= parts);
    Some(payload_from_vec(whole))
}

/// How many of the segments have no bytes at hand.
pub open spec fn open_count(segments: Seq<Segment>) -> nat
    decreases segments.len(),
{
    if segments.len() == 0 {
        0
    } else {
        open_count(segments.drop_last()) + if segments.last().data is None {
            1nat
        } else {
            0nat
        }
    }
}

/// The ranges of the segments without bytes, in order.
pub open spec fn open_ranges(segments: Seq<Segment>) -> Seq<Range<usize>>
    decreases segments.len(),
{
    if segments.len() == 0 {
        Seq::empty()
    } else if segments.last().data is None {
        open_ranges(segments.drop_last()).push(segments.last().range)
    } else {
        open_ranges(segments.drop_last())
    }
}

/// There are as many such ranges as segments without bytes, and none exactly if
/// every segment has its bytes.
pub(crate) proof fn lemma_open_ranges(segments: Seq<Segment>)
    ensures
        complete(segments) <==> open_ranges(segments).len() == 0,
        open_ranges(segments).len() == open_count(segments),
    decreases segments.len(),
{
    if segments.len() > 0 {
        let init = segments.drop_last();
        lemma_open_ranges(init);
        assert forall|i: int| 0 <= i < init.len() implies #[trigger] init[i] == segments[i] by {}
        assert(segments.last() == segments[segments.len() - 1]);
        if complete(segments) {
            assert forall|i: int| 0 <= i < init.len() implies (#[trigger] init[i]).data is Some by {
                assert(segments[i].data is Some);
            }
        }
        if complete(init) && segments.last().data is Some {
            assert forall|i: int|
                0 <= i < segments.len() implies (#[trigger] segments[i]).data is Some by {
                if i < init.len() {
                    assert(init[i].data is Some);
                }
            }
        }
    }
}

/// Lists the ranges of the segments without bytes, in order.
pub fn gaps(segments: &Vec<Segment>) -> (ranges: Vec<Range<usize>>)
    ensures
        ranges@ == open_ranges(segments@),
        ranges@.len() == open_count(segments@),
{
    let ghost parts = segments@;
    let mut ranges: Vec<Range<usize>> = Vec::new();
    let mut i: usize = 0;
    assert(parts.take(0) =~= Seq::empty());
    assert(ranges@ =~= Seq::empty());
    while i < segments.len()
        invariant
            parts == segments@,
            i <= parts.len(),
            ranges@ == open_ranges(parts.take(i as int)),
        decreases segments.len() - i,
    {
        proof {
            assert(parts.take(i + 1).drop_last() =~= parts.take(i as int));
            assert(parts.take(i + 1).last() == parts[i as int]);
        }
        if segments[i].data.is_none() {
            ranges.push(segments[i].range.start..segments[i].range.end);
        }
        i = i + 1;
    }
    proof {
        assert(parts.take(i as int) =~= parts);
        lemma_open_ranges(parts);
    }
    ranges
}

/// The segments, those without bytes filled with `fetched`, one after the
/// other.
pub open spec fn filled(segments: Seq<Segment>, fetched: Seq<Bytes>) -> Seq<Segment> {
    Seq::new(
        segments.len(),
        |i: int|
            match segments[i].data {
                Some(_) => segments[i],
                None => Segment {
                    range: segments[i].range,
                    data: Some(fetched[open_count(segments.take(i)) as int]),
                },
            },
    )
}

/// Fills the segments without bytes with `fetched`, one after the other.
pub(crate) fn fill(segments: Vec<Segment>, fetched: &Vec<Bytes>) -> (full: Vec<Segment>)
    requires
        open_count(segments@) == fetched@.len(),
    ensures
        full@.len() == segments@.len(),
        complete(full@),
        joined(full@) == joined(filled(segments@, fetched@)),
        forall|i: int|
            0 <= i < full@.len() ==> (#[trigger] full@[i]).range == segments@[i].range,
{
    let ghost parts = segments@;
    let ghost goal = filled(parts, fetched@);
    let mut full: Vec<Segment> = Vec::new();
    let mut used: usize = 0;
    assert(parts.take(0) =~= Seq::empty());
    assert(goal.take(0) =~= Seq::empty());
    for segment in it: segments.into_iter()
        invariant
            it.seq() == parts,
            goal == filled(parts, fetched@),
            open_count(parts) == fetched@.len(),
            full@.len() == it.index(),
            used == open_count(parts.take(it.index() as int)),
            complete(full@),
            joined(full@) == joined(goal.take(it.index() as int)),
            forall|i: int|
                0 <= i < full@.len() ==> (#[trigger] full@[i]).range == parts[i].range,
    {
        let ghost done = it.index() as int;
        let ghost before = full@;
        proof {
            assert(parts[done] == segment);
            assert(parts.take(done + 1).drop_last() =~= parts.take(done));
            assert(parts.take(done + 1).last() == segment);
            assert(goal.take(done + 1).drop_last() =~= goal.take(done));
            assert(goal.take(done + 1).last() == goal[done]);
            lemma_open_count(parts, done + 1);
        }
        match segment.data {
            Some(data) => {
                full.push(Segment { range: segment.range, data: Some(data) });
            },
            None => {
                assert(used < fetched.len());
                full.push(Segment { range: segment.range, data: Some(fetched[used].clone()) });
                used = used + 1;
            },
        }
        proof {
            assert(full@.drop_last() =~= before);
        }
    }
    assert(goal.take(goal.len() as int) =~= goal);
    full
}

/// The first segments have no more without bytes than all of them.
proof fn lemma_open_count(segments: Seq<Segment>, count: int)
    requires
        0 <= count <= segments.len(),
    ensures
        open_count(segments.take(count)) <= open_count(segments),
    decreases segments.len(),
{
    if count < segments.len() {
        assert(segments.drop_last().take(count) =~= segments.take(count));
        lemma_open_count(segments.drop_last(), count);
    } else {
        assert(segments.take(count) =~= segments);
    }
}

/// A plan of a range and one more segment on the right are a plan of both.
pub(crate) proof fn lemma_plan_pushed<Q>(
    segments: Seq<Segment>,
    segment: Segment,
    blocks: Seq<Block<Q>>,
    key: Q,
    start: int,
)
    requires
        is_plan(segments, blocks, key, start, segment.range.start as int),
        segment.range.start < segment.range.end,
        segment.mirrors(blocks, key),
        segments.len() > 0 ==> segments.last().data is None != segment.data is None,
    ensures
        is_plan(segments.push(segment), blocks, key, start, segment.range.end as int),
{
    let all = segments.push(segment);
    assert forall|i: int| 0 <= i < segments.len() implies #[trigger] all[i] == segments[i] by {}
    assert(all[segments.len() as int] == segment);
}

} // verus!
