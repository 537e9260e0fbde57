//! Source reads under way.
//!
//! Readers that miss the same bytes at the same time share one source read, and
//! no more source reads run at a time than the configuration allows.  A
//! [`FetchTable`] decides who reads, who waits and who is answered.  It does no
//! waiting and no reading itself: a reader asks for its turn, and asks again
//! whenever the table has changed.

use crate::capacity::NonZeroUsize;
use crate::key::CacheKey;
use crate::payload::{optional_view, payload_view};
use bytes::Bytes;
use std::ops::Range;
use vstd::prelude::*;

verus! {

/// Where a request stands.
pub enum Stage {
    /// Will read from the source as soon as there is room.
    Queued,
    /// Reads from the source.
    Running,
    /// Shares the source read of the request with the given number.
    Following(int),
    /// Has got the bytes of the source read that it shared.
    Answered(Seq<u8>),
}

/// A request for the bytes of `start..end` under `key`.
pub struct FetchRequest<Q> {
    /// Key of the bytes.
    pub key: Q,
    /// Inclusive start offset.
    pub start: int,
    /// Exclusive end offset.
    pub end: int,
    /// Where the request stands.
    pub stage: Stage,
}

impl<Q> FetchRequest<Q> {
    /// Asks for the bytes of `start..end` under `key`.
    pub open spec fn asks(self, key: Q, start: int, end: int) -> bool {
        self.key == key && self.start == start && self.end == end
    }

    /// Reads, or will read, from the source.
    pub open spec fn leads(self) -> bool {
        self.stage is Queued || self.stage is Running
    }

    /// The same request at another stage.
    pub open spec fn at(self, stage: Stage) -> Self {
        FetchRequest { stage, ..self }
    }
}

/// The requests of a table: a request is known by its place.
pub type Slots<Q> = Seq<Option<FetchRequest<Q>>>;

/// The slot holds a request that leads for the bytes of `start..end` under
/// `key`.
pub open spec fn leads_for<Q>(
    slot: Option<FetchRequest<Q>>,
    key: Q,
    start: int,
    end: int,
) -> bool {
    slot matches Some(request) && request.leads() && request.asks(key, start, end)
}

/// The slot holds a request that shares the source read of request `leader`.
pub open spec fn follows<Q>(slot: Option<FetchRequest<Q>>, leader: int) -> bool {
    slot matches Some(request) && request.stage == Stage::Following(leader)
}

/// The slot holds a request that reads from the source.
pub open spec fn runs<Q>(slot: Option<FetchRequest<Q>>) -> bool {
    slot matches Some(request) && request.stage is Running
}

/// How many requests read from the source.
pub open spec fn running<Q>(slots: Slots<Q>) -> nat
    decreases slots.len(),
{
    if slots.len() == 0 {
        0
    } else {
        running(slots.drop_last()) + if runs(slots.last()) {
            1nat
        } else {
            0nat
        }
    }
}

/// No two requests lead for the same bytes.
pub open spec fn leaders_distinct<Q>(slots: Slots<Q>) -> bool {
    forall|i: int, j: int|
        #![trigger slots[i], slots[j]]
        0 <= i < j < slots.len() && slots[i] is Some && slots[i].unwrap().leads() ==> !leads_for(
            slots[j],
            slots[i].unwrap().key,
            slots[i].unwrap().start,
            slots[i].unwrap().end,
        )
}

/// If request `i` shares a source read, it is one for the bytes that it asks
/// for.
pub open spec fn is_led<Q>(slots: Slots<Q>, i: int) -> bool {
    match slots[i] {
        Some(request) => match request.stage {
            Stage::Following(leader) => 0 <= leader < slots.len() && leads_for(
                slots[leader],
                request.key,
                request.start,
                request.end,
            ),
            _ => true,
        },
        None => true,
    }
}

/// Every request that shares a source read shares one for the bytes that it
/// asks for.
pub open spec fn followers_led<Q>(slots: Slots<Q>) -> bool {
    forall|i: int| 0 <= i < slots.len() ==> #[trigger] is_led(slots, i)
}

/// The stage at which a request for the bytes of `start..end` under `key`
/// enters.
pub open spec fn entry_stage<Q>(slots: Slots<Q>, key: Q, start: int, end: int) -> Stage {
    if exists|i: int| 0 <= i < slots.len() && leads_for(#[trigger] slots[i], key, start, end) {
        Stage::Following(
            choose|i: int| 0 <= i < slots.len() && leads_for(#[trigger] slots[i], key, start, end),
        )
    } else {
        Stage::Queued
    }
}

/// The slots with `request` entered as number `id`.
pub open spec fn entered<Q>(slots: Slots<Q>, id: int, request: FetchRequest<Q>) -> Slots<Q> {
    if id == slots.len() {
        slots.push(Some(request))
    } else {
        slots.update(id, Some(request))
    }
}

/// The first request that shares the source read of request `leader`.
pub open spec fn heir<Q>(slots: Slots<Q>, leader: int) -> int
    decreases slots.len(),
{
    if slots.len() == 0 {
        -1
    } else if heir(slots.drop_last(), leader) >= 0 {
        heir(slots.drop_last(), leader)
    } else if follows(slots.last(), leader) {
        slots.len() - 1
    } else {
        -1
    }
}

/// The slots after request `id` left.
///
/// If it led, those that shared its source read are answered with its bytes.
/// Without bytes the first of them leads in its place and the others share the
/// source read of that one.
pub open spec fn departed<Q>(slots: Slots<Q>, id: int, bytes: Option<Seq<u8>>) -> Slots<Q> {
    Seq::new(
        slots.len(),
        |i: int|
            if i == id {
                None
            } else if follows(slots[i], id) {
                Some(
                    slots[i].unwrap().at(
                        match bytes {
                            Some(bytes) => Stage::Answered(bytes),
                            None => if i == heir(slots, id) {
                                Stage::Queued
                            } else {
                                Stage::Following(heir(slots, id))
                            },
                        },
                    ),
                )
            } else {
                slots[i]
            },
    )
}

/// Where a request stands, as kept in the table.
enum Status {
    Queued,
    Running,
    Following(usize),
    Answered(Bytes),
}

/// A request, as kept in the table.
struct Request<K> {
    key: K,
    range: Range<usize>,
    status: Status,
}

/// The stage that a status stands for.
spec fn stage_of(status: Status) -> Stage {
    match status {
        Status::Queued => Stage::Queued,
        Status::Running => Stage::Running,
        Status::Following(leader) => Stage::Following(leader as int),
        Status::Answered(bytes) => Stage::Answered(payload_view(bytes)),
    }
}

/// The request that a slot stands for.
spec fn slot_of<K: CacheKey>(slot: Option<Request<K>>) -> Option<FetchRequest<K::V>> {
    match slot {
        Some(request) => Some(
            FetchRequest {
                key: request.key@,
                start: request.range.start as int,
                end: request.range.end as int,
                stage: stage_of(request.status),
            },
        ),
        None => None,
    }
}

/// What a request is to do next.
#[derive(Debug)]
pub enum Turn {
    /// Read from the source, and report the outcome.
    Fetch,
    /// Ask again after the table has changed.
    Wait,
    /// Take these bytes.  The request is no longer in the table.
    Answered(Bytes),
    /// There is no such request.
    Unknown,
}

/// The requests for source reads.
///
/// The limit on source reads is an argument of the operation that starts them.
pub struct FetchTable<K: CacheKey> {
    slots: Vec<Option<Request<K>>>,
}

impl<K: CacheKey> View for FetchTable<K> {
    type V = Slots<K::V>;

    closed spec fn view(&self) -> Slots<K::V> {
        self.slots@.map_values(|slot: Option<Request<K>>| slot_of(slot))
    }
}

impl<K: CacheKey> FetchTable<K> {
    /// No bytes are read twice at a time, and everyone who waits for a source
    /// read waits for the right one.
    pub open spec fn wf(self) -> bool {
        &&& leaders_distinct(self@)
        &&& followers_led(self@)
    }

    /// Creates a table without requests.
    pub fn new() -> (table: Self)
        ensures
            table.wf(),
            table@ == Slots::<K::V>::empty(),
    {
        let table = FetchTable { slots: Vec::new() };
        assert(table@ =~= Seq::empty());
        table
    }

    /// Finds the request that leads for the bytes of `range` under `key`.
    fn leader(&self, key: &K, range: &Range<usize>) -> (found: Option<usize>)
        ensures
            match found {
                Some(i) => i < self@.len() && leads_for(
                    self@[i as int],
                    key@,
                    range.start as int,
                    range.end as int,
                ),
                None => forall|i: int|
                    0 <= i < self@.len() ==> !leads_for(
                        #[trigger] self@[i],
                        key@,
                        range.start as int,
                        range.end as int,
                    ),
            },
    {
        let mut i: usize = 0;
        while i < self.slots.len()
            invariant
                i <= self.slots@.len(),
                self@.len() == self.slots@.len(),
                forall|j: int|
                    0 <= j < i ==> !leads_for(
                        #[trigger] self@[j],
                        key@,
                        range.start as int,
                        range.end as int,
                    ),
            decreases self.slots.len() - i,
        {
            assert(self@[i as int] == slot_of(self.slots@[i as int]));
            if let Some(request) = &self.slots[i] {
                let leads: bool = match request.status {
                    Status::Queued => true,
                    Status::Running => true,
                    _ => false,
                };
                if leads && request.range.start == range.start && request.range.end == range.end
                    && request.key.same_key(key) {
                    return Some(i);
                }
            }
            i = i + 1;
        }
        None
    }

    /// Finds a place for a new request.
    fn vacancy(&self) -> (id: usize)
        ensures
            id <= self@.len(),
            id < self@.len() ==> self@[id as int] is None,
    {
        let mut i: usize = 0;
        while i < self.slots.len()
            invariant
                i <= self.slots@.len(),
                self@.len() == self.slots@.len(),
            decreases self.slots.len() - i,
        {
            assert(self@[i as int] == slot_of(self.slots@[i as int]));
            if self.slots[i].is_none() {
                return i;
            }
            i = i + 1;
        }
        i
    }

    /// Enters a request for the bytes of `range` under `key` and returns its
    /// number.
    ///
    /// It shares the source read of a request for the same bytes if there is
    /// one that has not finished.
    pub fn join(&mut self, key: K, range: Range<usize>) -> (id: usize)
        requires
            old(self).wf(),
        ensures
            final(self).wf(),
            running(final(self)@) == running(old(self)@),
            enters(
                old(self)@,
                final(self)@,
                key@,
                range.start as int,
                range.end as int,
                id as int,
            ),
    {
        let ghost before = self@;
        let ghost start = range.start as int;
        let ghost end = range.end as int;
        let leader = self.leader(&key, &range);
        let id: usize = self.vacancy();
        let status: Status = match leader {
            Some(i) => {
                proof {
                    lemma_leader_unique(before, i as int, key@, start, end);
                }
                Status::Following(i)
            },
            None => Status::Queued,
        };
        let ghost request = FetchRequest {
            key: key@,
            start,
            end,
            stage: entry_stage(before, key@, start, end),
        };
        assert(stage_of(status) == request.stage);
        assert(before.len() == self.slots@.len());
        let slot = Some(Request { key, range, status });
        if id == self.slots.len() {
            self.slots.push(slot);
        } else {
            self.slots.set(id, slot);
        }
        proof {
            assert(self@ =~= entered(before, id as int, request));
            lemma_entered(before, id as int, key@, start, end);
        }
        id
    }

    /// Counts the requests that read from the source.
    fn running(&self) -> (count: usize)
        ensures
            count == running(self@),
    {
        let ghost slots = self@;
        let mut count: usize = 0;
        let mut i: usize = 0;
        assert(slots.take(0) =~= Seq::empty());
        while i < self.slots.len()
            invariant
                slots == self@,
                i <= self.slots@.len(),
                slots.len() == self.slots@.len(),
                count <= i,
                count == running(slots.take(i as int)),
            decreases self.slots.len() - i,
        {
            assert(slots[i as int] == slot_of(self.slots@[i as int]));
            proof {
                assert(slots.take(i + 1).drop_last() =~= slots.take(i as int));
                assert(slots.take(i + 1).last() == slots[i as int]);
            }
            if let Some(request) = &self.slots[i] {
                if let Status::Running = request.status {
                    count = count + 1;
                }
            }
            i = i + 1;
        }
        assert(slots.take(i as int) =~= slots);
        count
    }

    /// Moves request `id` to another status.
    fn advance(&mut self, id: usize, status: Status)
        requires
            id < old(self)@.len(),
            old(self)@[id as int] is Some,
        ensures
            final(self)@ == old(self)@.update(
                id as int,
                Some(old(self)@[id as int].unwrap().at(stage_of(status))),
            ),
    {
        let ghost before = self@;
        assert(before[id as int] == slot_of(self.slots@[id as int]));
        let mut slot: Option<Request<K>> = None;
        self.slots.set_and_swap(id, &mut slot);
        if let Some(request) = slot {
            self.slots.set(
                id,
                Some(Request { key: request.key, range: request.range, status }),
            );
        }
        assert(self@ =~= before.update(
            id as int,
            Some(before[id as int].unwrap().at(stage_of(status))),
        ));
    }

    /// Tells request `id` what to do next.
    ///
    /// A queued request gets its turn to read if fewer than `limit` read.
    pub fn poll(&mut self, limit: NonZeroUsize, id: usize) -> (turn: Turn)
        requires
            old(self).wf(),
        ensures
            final(self).wf(),
            polls(old(self)@, final(self)@, limit.value() as nat, id as int, turn),
            running(old(self)@) <= limit.value() ==> running(final(self)@) <= limit.value(),
    {
        let ghost before = self@;
        assert(before.len() == self.slots@.len());
        if id >= self.slots.len() {
            return Turn::Unknown;
        }
        assert(before[id as int] == slot_of(self.slots@[id as int]));
        let queued: bool;
        match &self.slots[id] {
            None => {
                return Turn::Unknown;
            },
            Some(request) => {
                match &request.status {
                    Status::Queued => {
                        queued = true;
                    },
                    Status::Answered(bytes) => {
                        let bytes = bytes.clone();
                        self.slots.set(id, None);
                        proof {
                            assert(self@ =~= before.update(id as int, None));
                            lemma_vacated(before, id as int);
                        }
                        return Turn::Answered(bytes);
                    },
                    _ => {
                        queued = false;
                    },
                }
            },
        }
        if queued && self.running() < limit.get() {
            self.advance(id, Status::Running);
            proof {
                lemma_started(before, id as int);
            }
            Turn::Fetch
        } else {
            Turn::Wait
        }
    }

    /// Finds the first request that shares the source read of request `leader`.
    fn heir(&self, leader: usize) -> (found: Option<usize>)
        ensures
            match found {
                Some(i) => i == heir(self@, leader as int),
                None => heir(self@, leader as int) == -1,
            },
    {
        let ghost slots = self@;
        let mut i: usize = 0;
        assert(slots.take(0) =~= Seq::empty());
        while i < self.slots.len()
            invariant
                slots == self@,
                i <= self.slots@.len(),
                slots.len() == self.slots@.len(),
                heir(slots.take(i as int), leader as int) == -1,
            decreases self.slots.len() - i,
        {
            assert(slots[i as int] == slot_of(self.slots@[i as int]));
            proof {
                assert(slots.take(i + 1).drop_last() =~= slots.take(i as int));
                assert(slots.take(i + 1).last() == slots[i as int]);
            }
            if self.shares(i, leader) {
                proof {
                    lemma_heir_prefix(slots, i + 1, leader as int);
                }
                return Some(i);
            }
            i = i + 1;
        }
        assert(slots.take(i as int) =~= slots);
        None
    }

    /// Tells whether request `id` shares the source read of request `leader`.
    fn shares(&self, id: usize, leader: usize) -> (sharing: bool)
        requires
            id < self@.len(),
        ensures
            sharing == follows(self@[id as int], leader as int),
    {
        assert(self@[id as int] == slot_of(self.slots@[id as int]));
        match &self.slots[id] {
            Some(request) => match request.status {
                Status::Following(other) => other == leader,
                _ => false,
            },
            None => false,
        }
    }

    /// Takes request `id` out of the table, and tells whether it was there.
    ///
    /// A request that read from the source hands over the bytes it got, if it
    /// got any.  One that failed or was given up has none: another request for
    /// the same bytes takes its place.
    pub fn finish(&mut self, id: usize, bytes: Option<Bytes>) -> (known: bool)
        requires
            old(self).wf(),
        ensures
            final(self).wf(),
            running(final(self)@) <= running(old(self)@),
            finishes(old(self)@, final(self)@, id as int, optional_view(bytes), known),
    {
        let ghost before = self@;
        let ghost after = departed(before, id as int, optional_view(bytes));
        let next = self.heir(id);
        proof {
            lemma_departed(before, id as int, optional_view(bytes));
        }
        assert(before.len() == self.slots@.len());
        let count: usize = self.slots.len();
        let mut i: usize = 0;
        while i < count
            invariant
                i <= count == before.len(),
                self@.len() == before.len(),
                after == departed(before, id as int, optional_view(bytes)),
                match next {
                    Some(h) => h == heir(before, id as int),
                    None => heir(before, id as int) == -1,
                },
                forall|j: int| 0 <= j < i && j != id ==> #[trigger] self@[j] == after[j],
                forall|j: int| i <= j < count || j == id && j < count ==> #[trigger] self@[j]
                    == before[j],
            decreases count - i,
        {
            let ghost current = self@;
            if i != id && self.shares(i, id) {
                let status: Status = match &bytes {
                    Some(bytes) => Status::Answered(bytes.clone()),
                    None => match next {
                        Some(h) => if h == i {
                            Status::Queued
                        } else {
                            Status::Following(h)
                        },
                        None => {
                            proof {
                                lemma_heir(before, id as int);
                                assert(follows(before[i as int], id as int));
                            }
                            Status::Queued
                        },
                    },
                };
                self.advance(i, status);
            }
            i = i + 1;
        }
        let mut known: bool = false;
        if id < count {
            let ghost current = self@;
            assert(current[id as int] == slot_of(self.slots@[id as int]));
            known = self.slots[id].is_some();
            self.slots.set(id, None);
            assert(self@ =~= current.update(id as int, None));
        }
        assert(self@ =~= after);
        known
    }
}

/// Entering a request for the bytes of `start..end` under `key` as number
/// `id`.
pub open spec fn enters<Q>(
    before: Slots<Q>,
    after: Slots<Q>,
    key: Q,
    start: int,
    end: int,
    id: int,
) -> bool {
    &&& 0 <= id <= before.len()
    &&& id < before.len() ==> before[id] is None
    &&& after == entered(
        before,
        id,
        FetchRequest { key, start, end, stage: entry_stage(before, key, start, end) },
    )
}

/// Taking request `id` out, which hands over `bytes`.
pub open spec fn finishes<Q>(
    before: Slots<Q>,
    after: Slots<Q>,
    id: int,
    bytes: Option<Seq<u8>>,
    known: bool,
) -> bool {
    &&& known == (0 <= id < before.len() && before[id] is Some)
    &&& after == departed(before, id, bytes)
}

/// Asking for the turn of request `id` under a limit of source reads.
pub open spec fn polls<Q>(
    before: Slots<Q>,
    after: Slots<Q>,
    limit: nat,
    id: int,
    turn: Turn,
) -> bool {
    if !(0 <= id < before.len()) || before[id] is None {
        turn is Unknown && after == before
    } else {
        let request = before[id].unwrap();
        match request.stage {
            Stage::Queued => if running(before) < limit {
                turn is Fetch && after == before.update(id, Some(request.at(Stage::Running)))
            } else {
                turn is Wait && after == before
            },
            Stage::Answered(bytes) => {
                &&& turn matches Turn::Answered(given) && payload_view(given) == bytes
                &&& after == before.update(id, None)
            },
            _ => turn is Wait && after == before,
        }
    }
}

/// At most one request leads for given bytes.
proof fn lemma_leader_unique<Q>(slots: Slots<Q>, i: int, key: Q, start: int, end: int)
    requires
        leaders_distinct(slots),
        0 <= i < slots.len(),
        leads_for(slots[i], key, start, end),
    ensures
        entry_stage(slots, key, start, end) == Stage::Following(i),
{
    let j = choose|j: int| 0 <= j < slots.len() && leads_for(#[trigger] slots[j], key, start, end);
    assert(slots[j] is Some && slots[i] is Some);
}

/// Replacing a slot changes the number of source reads by that slot.
pub(crate) proof fn lemma_running_update<Q>(slots: Slots<Q>, id: int, slot: Option<FetchRequest<Q>>)
    requires
        0 <= id < slots.len(),
    ensures
        running(slots.update(id, slot)) == running(slots) - (if runs(slots[id]) {
            1int
        } else {
            0
        }) + (if runs(slot) {
            1int
        } else {
            0
        }),
    decreases slots.len(),
{
    let new = slots.update(id, slot);
    if id == slots.len() - 1 {
        assert(new.drop_last() =~= slots.drop_last());
    } else {
        assert(new.drop_last() =~= slots.drop_last().update(id, slot));
        lemma_running_update(slots.drop_last(), id, slot);
    }
}

/// Entering a request keeps the table in order.
proof fn lemma_entered<Q>(slots: Slots<Q>, id: int, key: Q, start: int, end: int)
    requires
        leaders_distinct(slots),
        followers_led(slots),
        0 <= id <= slots.len(),
        id < slots.len() ==> slots[id] is None,
    ensures
        ({
            let request = FetchRequest {
                key,
                start,
                end,
                stage: entry_stage(slots, key, start, end),
            };
            let all = entered(slots, id, request);
            leaders_distinct(all) && followers_led(all) && running(all) == running(slots)
        }),
{
    let request = FetchRequest { key, start, end, stage: entry_stage(slots, key, start, end) };
    let all = entered(slots, id, request);
    if id == slots.len() {
        assert(all.drop_last() =~= slots);
    } else {
        lemma_running_update(slots, id, Some(request));
    }
    assert(all[id] == Some(request));
    assert forall|i: int| 0 <= i < slots.len() && i != id implies #[trigger] all[i] == slots[i] by {}
    assert forall|i: int| 0 <= i < all.len() implies #[trigger] is_led(all, i) by {
        assert(i == id || is_led(slots, i));
    }
}

/// Dropping an answered request keeps the table in order.
proof fn lemma_vacated<Q>(slots: Slots<Q>, id: int)
    requires
        leaders_distinct(slots),
        followers_led(slots),
        0 <= id < slots.len(),
        slots[id] is Some,
        !slots[id].unwrap().leads(),
    ensures
        leaders_distinct(slots.update(id, None)),
        followers_led(slots.update(id, None)),
        running(slots.update(id, None)) == running(slots),
{
    let all = slots.update(id, None);
    lemma_running_update(slots, id, None);
    assert forall|i: int| 0 <= i < slots.len() && i != id implies #[trigger] all[i] == slots[i] by {}
    assert forall|i: int| 0 <= i < all.len() implies #[trigger] is_led(all, i) by {
        assert(i == id || is_led(slots, i));
    }
}

/// Starting a queued request keeps the table in order and runs one more source
/// read.
proof fn lemma_started<Q>(slots: Slots<Q>, id: int)
    requires
        leaders_distinct(slots),
        followers_led(slots),
        0 <= id < slots.len(),
        slots[id] is Some,
        slots[id].unwrap().stage is Queued,
    ensures
        ({
            let all = slots.update(id, Some(slots[id].unwrap().at(Stage::Running)));
            leaders_distinct(all) && followers_led(all) && running(all) == running(slots) + 1
        }),
{
    let all = slots.update(id, Some(slots[id].unwrap().at(Stage::Running)));
    lemma_running_update(slots, id, Some(slots[id].unwrap().at(Stage::Running)));
    assert forall|i: int| 0 <= i < slots.len() && i != id implies #[trigger] all[i] == slots[i] by {}
    assert forall|i: int, j: int|
        #![trigger all[i], all[j]]
        0 <= i < j < all.len() && all[i] is Some && all[i].unwrap().leads() implies !leads_for(
        all[j],
        all[i].unwrap().key,
        all[i].unwrap().start,
        all[i].unwrap().end,
    ) by {
        assert(slots[i] is Some && slots[i].unwrap().leads());
        assert(!leads_for(
            slots[j],
            slots[i].unwrap().key,
            slots[i].unwrap().start,
            slots[i].unwrap().end,
        ));
    }
    assert forall|i: int| 0 <= i < all.len() implies #[trigger] is_led(all, i) by {
        assert(i == id || is_led(slots, i));
    }
}

/// What the first follower is, and that there is one if there is any follower.
pub(crate) proof fn lemma_heir<Q>(slots: Slots<Q>, leader: int)
    ensures
        -1 <= heir(slots, leader) < slots.len(),
        heir(slots, leader) >= 0 ==> follows(slots[heir(slots, leader)], leader),
        forall|i: int|
            0 <= i < slots.len() && follows(#[trigger] slots[i], leader) ==> 0 <= heir(
                slots,
                leader,
            ) <= i,
    decreases slots.len(),
{
    if slots.len() > 0 {
        let init = slots.drop_last();
        lemma_heir(init, leader);
        assert forall|i: int|
            0 <= i < slots.len() && follows(#[trigger] slots[i], leader) implies 0 <= heir(
            slots,
            leader,
        ) <= i by {
            if i < init.len() {
                assert(init[i] == slots[i]);
            }
        }
        if heir(init, leader) >= 0 {
            assert(init[heir(init, leader)] == slots[heir(init, leader)]);
        }
    }
}

/// The first follower among the first requests is the first of all.
proof fn lemma_heir_prefix<Q>(slots: Slots<Q>, count: int, leader: int)
    requires
        0 <= count <= slots.len(),
        heir(slots.take(count), leader) >= 0,
    ensures
        heir(slots, leader) == heir(slots.take(count), leader),
{
    let head = slots.take(count);
    lemma_heir(head, leader);
    lemma_heir(slots, leader);
    let first = heir(head, leader);
    assert(slots[first] == head[first]);
    let second = heir(slots, leader);
    assert(head[second] == slots[second]);
}

/// If every source read of one table is one of the other, there are no more of
/// them.
pub(crate) proof fn lemma_running_mono<Q>(left: Slots<Q>, right: Slots<Q>)
    requires
        left.len() == right.len(),
        forall|i: int| 0 <= i < left.len() && runs(#[trigger] left[i]) ==> runs(right[i]),
    ensures
        running(left) <= running(right),
    decreases left.len(),
{
    if left.len() > 0 {
        let left_init = left.drop_last();
        let right_init = right.drop_last();
        assert forall|i: int| 0 <= i < left_init.len() && runs(#[trigger] left_init[i]) implies runs(
            right_init[i],
        ) by {
            assert(left_init[i] == left[i]);
        }
        lemma_running_mono(left_init, right_init);
        assert(left.last() == left[left.len() - 1]);
    }
}

/// A departure keeps the table in order.
proof fn lemma_departed<Q>(slots: Slots<Q>, id: int, bytes: Option<Seq<u8>>)
    requires
        leaders_distinct(slots),
        followers_led(slots),
    ensures
        leaders_distinct(departed(slots, id, bytes)),
        followers_led(departed(slots, id, bytes)),
        running(departed(slots, id, bytes)) <= running(slots),
{
    let all = departed(slots, id, bytes);
    let next = heir(slots, id);
    lemma_heir(slots, id);
    lemma_running_mono(all, slots);
    assert forall|i: int| 0 <= i < slots.len() && follows(#[trigger] slots[i], id) implies 0 <= id
        < slots.len() && leads_for(
        slots[id],
        slots[i].unwrap().key,
        slots[i].unwrap().start,
        slots[i].unwrap().end,
    ) by {
        assert(is_led(slots, i));
    }
    assert forall|i: int, j: int|
        #![trigger all[i], all[j]]
        0 <= i < j < all.len() && all[i] is Some && all[i].unwrap().leads() implies !leads_for(
        all[j],
        all[i].unwrap().key,
        all[i].unwrap().start,
        all[i].unwrap().end,
    ) by {
        let key = all[i].unwrap().key;
        let start = all[i].unwrap().start;
        let end = all[i].unwrap().end;
        if leads_for(all[j], key, start, end) {
            let left = if follows(slots[i], id) {
                id
            } else {
                i
            };
            let right = if follows(slots[j], id) {
                id
            } else {
                j
            };
            assert(leads_for(slots[left], key, start, end));
            assert(leads_for(slots[right], key, start, end));
            assert(left != right);
        }
    }
    assert forall|i: int| 0 <= i < all.len() implies #[trigger] is_led(all, i) by {
        assert(is_led(slots, i));
        if follows(slots[i], id) && bytes is None {
            assert(follows(slots[next], id));
            assert(all[next].unwrap().leads());
        }
    }
}

} // verus!
