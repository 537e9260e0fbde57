//! The cache that clones and threads share.
//!
//! A [`RangeCache`] keeps a [`RangeStore`] behind a lock.  What an operation
//! finds there depends on what the other handles did before, so its contract
//! says that it takes some valid content to a valid content exactly as the
//! operation of the store does, with the answer of that operation, in one
//! critical section of its own lock and no other.

use crate::capacity::{CacheCapacity, CacheSnapshot, InsertOutcome, Invalidation};
use crate::effect::{clears, inserts, invalidates, lists_gaps, reads, reports};
use crate::error::{payload_fault, RangeError};
use crate::key::CacheKey;
use crate::laws::{
    law_clear_keeps_valid, law_insert_keeps_valid, law_invalidate_keeps_valid, law_read_keeps_valid,
};
use crate::lock::{new_lock, section, share, with_lock, Passage};
use crate::payload::payload_view;
use crate::plan::{plans, Segment};
use crate::reader::{accepts, deliver, delivers, ReadError};
use crate::store::RangeStore;
use crate::view::CacheView;
use bytes::Bytes;
use parking_lot::Mutex;
use std::ops::Range;
use std::sync::Arc;
use vstd::prelude::*;

verus! {

/// What a handle under a ceiling promises of an insertion.
pub open spec fn some_insert<Q>(
    limit: Option<nat>,
    key: Q,
    range: Range<usize>,
    payload: Seq<u8>,
    answer: Result<InsertOutcome, RangeError>,
) -> bool {
    exists|before: CacheView<Q>, after: CacheView<Q>|
        before.valid(limit) && after.valid(limit) && #[trigger] inserts(
            before,
            after,
            limit,
            key,
            range,
            payload,
            answer,
        )
}

/// What a handle under a ceiling promises of a read.
pub open spec fn some_read<Q>(
    limit: Option<nat>,
    key: Q,
    range: Range<usize>,
    answer: Result<Option<Bytes>, RangeError>,
) -> bool {
    exists|before: CacheView<Q>, after: CacheView<Q>|
        before.valid(limit) && after.valid(limit) && #[trigger] reads(
            before,
            after,
            key,
            range,
            answer,
        )
}

/// What a handle under a ceiling promises of a question for gaps.
pub open spec fn some_gaps<Q>(
    limit: Option<nat>,
    key: Q,
    range: Range<usize>,
    answer: Result<Vec<Range<usize>>, RangeError>,
) -> bool {
    exists|content: CacheView<Q>|
        content.valid(limit) && #[trigger] lists_gaps(content, key, range, answer)
}

/// What a handle under a ceiling promises of an invalidation.
pub open spec fn some_invalidation<Q>(limit: Option<nat>, key: Q, answer: Invalidation) -> bool {
    exists|before: CacheView<Q>, after: CacheView<Q>|
        before.valid(limit) && after.valid(limit) && #[trigger] invalidates(
            before,
            after,
            key,
            answer,
        )
}

/// What a handle under a ceiling promises of clearing.
pub open spec fn some_clearance<Q>(limit: Option<nat>, answer: Invalidation) -> bool {
    exists|before: CacheView<Q>, after: CacheView<Q>|
        before.valid(limit) && after.valid(limit) && #[trigger] clears(before, after, answer)
}

/// What a handle with a capacity policy promises of a snapshot.
pub open spec fn some_report<Q>(capacity: CacheCapacity, answer: CacheSnapshot) -> bool {
    exists|content: CacheView<Q>|
        content.valid(capacity.limit()) && #[trigger] reports(content, capacity, answer)
}

/// What a handle under a ceiling promises of planning a read.
pub open spec fn some_plan<Q>(
    limit: Option<nat>,
    key: Q,
    range: Range<usize>,
    answer: Result<Vec<Segment>, RangeError>,
) -> bool {
    exists|before: CacheView<Q>, after: CacheView<Q>|
        before.valid(limit) && after.valid(limit) && #[trigger] plans(
            before,
            after,
            key,
            range,
            answer,
        )
}

/// What a handle under a ceiling promises of taking the response of a source.
pub open spec fn some_delivery<Q, E>(
    limit: Option<nat>,
    key: Q,
    range: Range<usize>,
    response: Result<Bytes, E>,
    answer: Result<Bytes, ReadError<E>>,
) -> bool {
    exists|before: CacheView<Q>, after: CacheView<Q>|
        before.valid(limit) && after.valid(limit) && #[trigger] delivers(
            before,
            after,
            limit,
            key,
            range,
            response,
            answer,
        )
}

/// A store and the capacity policy that it respects, for use behind a lock.
struct State<K: CacheKey> {
    store: RangeStore<K>,
    capacity: CacheCapacity,
}

/// A request to insert.
struct InsertRequest<K> {
    capacity: CacheCapacity,
    key: K,
    range: Range<usize>,
    payload: Bytes,
}

/// A request to take the response of a source.
struct DeliverRequest<K, E> {
    capacity: CacheCapacity,
    key: K,
    range: Range<usize>,
    response: Result<Bytes, E>,
}

/// A request about a range.
struct RangeRequest<'a, K> {
    capacity: CacheCapacity,
    key: &'a K,
    range: Range<usize>,
}

/// A request about a key.
struct KeyRequest<'a, K> {
    capacity: CacheCapacity,
    key: &'a K,
}

/// A request about everything.
struct WholeRequest {
    capacity: CacheCapacity,
}

/// The answer to a request, and the content before and after it.
type Reply<K, A> = (A, Ghost<Passage<CacheView<<K as View>::V>>>);

impl<K: CacheKey> State<K> {
    #[verifier::type_invariant]
    spec fn within_capacity(self) -> bool {
        self.store.wf() && self.store@.valid(self.capacity.limit())
    }

    /// What an operation of a handle with the policy `capacity` finds: the
    /// content of the store.
    ///
    /// All handles to one store have the policy that the store was made with. A
    /// handle with another one would find what that policy leaves.
    spec fn found(self, capacity: CacheCapacity) -> CacheView<K::V> {
        if self.capacity == capacity {
            self.store@
        } else {
            self.store@.enforced(capacity.limit())
        }
    }

    /// An operation of a handle with the policy `capacity` took the state from
    /// `self` to `after`: it found valid content, and left valid content under
    /// the same policy.  `passage` records both.
    spec fn leads_to(
        self,
        after: Self,
        capacity: CacheCapacity,
        passage: Passage<CacheView<K::V>>,
    ) -> bool {
        &&& passage.before == self.found(capacity)
        &&& passage.after == after.store@
        &&& passage.before.valid(capacity.limit())
        &&& passage.after.valid(capacity.limit())
        &&& after.capacity == capacity
    }

    /// Takes the store out and leaves an empty one.
    fn take(&mut self, capacity: CacheCapacity) -> (store: RangeStore<K>)
        ensures
            store.wf(),
            store@ == old(self).found(capacity),
            store@.valid(capacity.limit()),
            final(self).capacity == capacity,
    {
        proof {
            use_type_invariant(&*self);
        }
        let mut store = RangeStore::new();
        std::mem::swap(&mut store, &mut self.store);
        if self.capacity != capacity {
            store.enforce(capacity);
            self.capacity = capacity;
        }
        store
    }

    /// Inserts into the store.
    fn insert(&mut self, request: InsertRequest<K>) -> (reply: Reply<
        K,
        Result<InsertOutcome, RangeError>,
    >)
        ensures
            old(self).leads_to(*final(self), request.capacity, reply.1@),
            inserts(
                reply.1@.before,
                reply.1@.after,
                request.capacity.limit(),
                request.key@,
                request.range,
                payload_view(request.payload),
                reply.0,
            ),
    {
        let mut store = self.take(request.capacity);
        let ghost before = store@;
        let ghost limit = request.capacity.limit();
        proof {
            if payload_fault(request.range, payload_view(request.payload).len()) is None {
                law_insert_keeps_valid(
                    before,
                    limit,
                    request.key@,
                    request.range.start as int,
                    payload_view(request.payload),
                );
            }
        }
        let answer = store.insert(request.capacity, request.key, request.range, request.payload);
        let ghost after = store@;
        self.store = store;
        (answer, Ghost(Passage { before, after }))
    }

    /// Reads from the store.
    fn get(&mut self, request: RangeRequest<'_, K>) -> (reply: Reply<
        K,
        Result<Option<Bytes>, RangeError>,
    >)
        ensures
            old(self).leads_to(*final(self), request.capacity, reply.1@),
            reads(reply.1@.before, reply.1@.after, request.key@, request.range, reply.0),
    {
        let mut store = self.take(request.capacity);
        let ghost before = store@;
        let ghost limit = request.capacity.limit();
        proof {
            law_read_keeps_valid(
                before,
                limit,
                request.key@,
                request.range.start as int,
                request.range.end as int,
            );
        }
        let answer = store.get(request.key, request.range);
        let ghost after = store@;
        self.store = store;
        (answer, Ghost(Passage { before, after }))
    }

    /// Plans a read of the store.
    fn plan(&mut self, request: RangeRequest<'_, K>) -> (reply: Reply<
        K,
        Result<Vec<Segment>, RangeError>,
    >)
        ensures
            old(self).leads_to(*final(self), request.capacity, reply.1@),
            plans(reply.1@.before, reply.1@.after, request.key@, request.range, reply.0),
    {
        let mut store = self.take(request.capacity);
        let ghost before = store@;
        let ghost limit = request.capacity.limit();
        proof {
            law_read_keeps_valid(
                before,
                limit,
                request.key@,
                request.range.start as int,
                request.range.end as int,
            );
        }
        let answer = store.plan(request.key, request.range);
        let ghost after = store@;
        self.store = store;
        (answer, Ghost(Passage { before, after }))
    }

    /// Takes the response of a source.
    fn deliver<E>(&mut self, request: DeliverRequest<K, E>) -> (reply: Reply<
        K,
        Result<Bytes, ReadError<E>>,
    >)
        ensures
            old(self).leads_to(*final(self), request.capacity, reply.1@),
            delivers(
                reply.1@.before,
                reply.1@.after,
                request.capacity.limit(),
                request.key@,
                request.range,
                request.response,
                reply.0,
            ),
    {
        let mut store = self.take(request.capacity);
        let ghost before = store@;
        let ghost limit = request.capacity.limit();
        let answer = deliver(
            &mut store,
            request.capacity,
            request.key,
            request.range,
            request.response,
        );
        let ghost after = store@;
        proof {
            if answer is Ok {
                law_insert_keeps_valid(
                    before,
                    limit,
                    request.key@,
                    request.range.start as int,
                    payload_view(answer->Ok_0),
                );
            }
        }
        self.store = store;
        (answer, Ghost(Passage { before, after }))
    }

    /// Lists gaps of the store.
    fn missing_ranges(&mut self, request: RangeRequest<'_, K>) -> (reply: Reply<
        K,
        Result<Vec<Range<usize>>, RangeError>,
    >)
        ensures
            old(self).leads_to(*final(self), request.capacity, reply.1@),
            reply.1@.after == reply.1@.before,
            lists_gaps(reply.1@.before, request.key@, request.range, reply.0),
    {
        let store = self.take(request.capacity);
        let ghost before = store@;
        let ghost limit = request.capacity.limit();
        let answer = store.missing_ranges(request.key, request.range);
        let ghost after = store@;
        self.store = store;
        (answer, Ghost(Passage { before, after }))
    }

    /// Drops what the store has of a key.
    fn invalidate(&mut self, request: KeyRequest<'_, K>) -> (reply: Reply<K, Invalidation>)
        ensures
            old(self).leads_to(*final(self), request.capacity, reply.1@),
            invalidates(reply.1@.before, reply.1@.after, request.key@, reply.0),
    {
        let mut store = self.take(request.capacity);
        let ghost before = store@;
        let ghost limit = request.capacity.limit();
        proof {
            law_invalidate_keeps_valid(before, limit, request.key@);
        }
        let answer = store.invalidate(request.key);
        let ghost after = store@;
        self.store = store;
        (answer, Ghost(Passage { before, after }))
    }

    /// Drops everything from the store.
    fn clear(&mut self, request: WholeRequest) -> (reply: Reply<K, Invalidation>)
        ensures
            old(self).leads_to(*final(self), request.capacity, reply.1@),
            clears(reply.1@.before, reply.1@.after, reply.0),
    {
        let mut store = self.take(request.capacity);
        let ghost before = store@;
        let ghost limit = request.capacity.limit();
        proof {
            law_clear_keeps_valid(before, limit);
        }
        let answer = store.clear();
        let ghost after = store@;
        self.store = store;
        (answer, Ghost(Passage { before, after }))
    }

    /// Reports on the store.
    fn snapshot(&mut self, request: WholeRequest) -> (reply: Reply<K, CacheSnapshot>)
        ensures
            old(self).leads_to(*final(self), request.capacity, reply.1@),
            reply.1@.after == reply.1@.before,
            reports(reply.1@.before, request.capacity, reply.0),
    {
        let store = self.take(request.capacity);
        let ghost before = store@;
        let ghost limit = request.capacity.limit();
        let answer = store.snapshot(request.capacity);
        let ghost after = store@;
        self.store = store;
        (answer, Ghost(Passage { before, after }))
    }
}

/// A cloneable, thread-safe sparse cache of byte ranges keyed by `K`.
///
/// Clones share their content. Each operation is one critical section: it finds
/// some content, leaves some content, and its contract relates the two, the
/// arguments and the answer. What a section leaves is what the next one on the
/// same lock finds.
#[verifier::reject_recursive_types(K)]
pub struct RangeCache<K: CacheKey> {
    inner: Arc<Mutex<State<K>>>,
    capacity: CacheCapacity,
}

impl<K: CacheKey> RangeCache<K> {
    /// The capacity policy.
    pub closed spec fn policy(self) -> CacheCapacity {
        self.capacity
    }

    /// Both handles lock the same content.
    pub closed spec fn shares(self, other: Self) -> bool {
        self.inner == other.inner && self.capacity == other.capacity
    }

    /// The lock was made around `content`.
    pub closed spec fn made_with(self, content: CacheView<K::V>) -> bool {
        exists|state: State<K>|
            {
                &&& #[trigger] call_ensures(new_lock::<State<K>>, (state,), *self.inner)
                &&& state.store@ == content
                &&& state.capacity == self.capacity
            }
    }

    /// A section found and left valid content.
    pub open spec fn passes(self, passage: Passage<CacheView<K::V>>) -> bool {
        passage.before.valid(self.policy().limit()) && passage.after.valid(self.policy().limit())
    }

    /// The section that inserts `payload` as the bytes of `range` under `key`,
    /// by its name.
    pub closed spec fn insert_section(self, key: K, range: Range<usize>, payload: Bytes) -> int {
        section(
            (
                &*self.inner,
                State::<K>::insert,
                InsertRequest { capacity: self.capacity, key, range, payload },
            ),
        )
    }

    /// A section of this cache's lock that inserts `payload` as the bytes of
    /// `range` under `key` gave `answer`, and found and left what `passage`
    /// says.
    pub closed spec fn insert_entered(
        self,
        key: K,
        range: Range<usize>,
        payload: Bytes,
        passage: Passage<CacheView<K::V>>,
        answer: Result<InsertOutcome, RangeError>,
    ) -> bool {
        call_ensures(
            with_lock::<State<K>, InsertRequest<K>, Reply<K, Result<InsertOutcome, RangeError>>, _>,
            (
                &*self.inner,
                State::<K>::insert,
                InsertRequest { capacity: self.capacity, key, range, payload },
            ),
            (answer, Ghost(passage)),
        )
    }

    /// An operation on this cache that inserts `payload` as the bytes of
    /// `range` under `key`.
    pub open spec fn inserted(
        self,
        key: K,
        range: Range<usize>,
        payload: Bytes,
        passage: Passage<CacheView<K::V>>,
        answer: Result<InsertOutcome, RangeError>,
    ) -> bool {
        &&& self.insert_entered(key, range, payload, passage, answer)
        &&& self.passes(passage)
        &&& inserts(
            passage.before,
            passage.after,
            self.policy().limit(),
            key@,
            range,
            payload_view(payload),
            answer,
        )
    }

    /// The section that reads `range` under `key`, by its name.
    pub closed spec fn get_section(self, key: &K, range: Range<usize>) -> int {
        section(
            (
                &*self.inner,
                State::<K>::get,
                RangeRequest { capacity: self.capacity, key, range },
            ),
        )
    }

    /// A section of this cache's lock that reads `range` under `key` gave
    /// `answer`, and found and left what `passage` says.
    pub closed spec fn get_entered(
        self,
        key: &K,
        range: Range<usize>,
        passage: Passage<CacheView<K::V>>,
        answer: Result<Option<Bytes>, RangeError>,
    ) -> bool {
        call_ensures(
            with_lock::<
                State<K>,
                RangeRequest<'_, K>,
                Reply<K, Result<Option<Bytes>, RangeError>>,
                _,
            >,
            (&*self.inner, State::<K>::get, RangeRequest { capacity: self.capacity, key, range }),
            (answer, Ghost(passage)),
        )
    }

    /// An operation on this cache that reads `range` under `key`.
    pub open spec fn got(
        self,
        key: &K,
        range: Range<usize>,
        passage: Passage<CacheView<K::V>>,
        answer: Result<Option<Bytes>, RangeError>,
    ) -> bool {
        &&& self.get_entered(key, range, passage, answer)
        &&& self.passes(passage)
        &&& reads(passage.before, passage.after, key@, range, answer)
    }

    /// The section that plans a read of `range` under `key`, by its name.
    pub closed spec fn plan_section(self, key: &K, range: Range<usize>) -> int {
        section(
            (
                &*self.inner,
                State::<K>::plan,
                RangeRequest { capacity: self.capacity, key, range },
            ),
        )
    }

    /// A section of this cache's lock that plans a read of `range` under `key`
    /// gave `answer`, and found and left what `passage` says.
    pub closed spec fn plan_entered(
        self,
        key: &K,
        range: Range<usize>,
        passage: Passage<CacheView<K::V>>,
        answer: Result<Vec<Segment>, RangeError>,
    ) -> bool {
        call_ensures(
            with_lock::<
                State<K>,
                RangeRequest<'_, K>,
                Reply<K, Result<Vec<Segment>, RangeError>>,
                _,
            >,
            (&*self.inner, State::<K>::plan, RangeRequest { capacity: self.capacity, key, range }),
            (answer, Ghost(passage)),
        )
    }

    /// An operation on this cache that plans a read of `range` under `key`.
    pub open spec fn planned(
        self,
        key: &K,
        range: Range<usize>,
        passage: Passage<CacheView<K::V>>,
        answer: Result<Vec<Segment>, RangeError>,
    ) -> bool {
        &&& self.plan_entered(key, range, passage, answer)
        &&& self.passes(passage)
        &&& plans(passage.before, passage.after, key@, range, answer)
    }

    /// The section that takes `response` to a source read of `range` under
    /// `key`, by its name.
    pub closed spec fn deliver_section<E>(
        self,
        key: K,
        range: Range<usize>,
        response: Result<Bytes, E>,
    ) -> int {
        section(
            (
                &*self.inner,
                State::<K>::deliver::<E>,
                DeliverRequest { capacity: self.capacity, key, range, response },
            ),
        )
    }

    /// A section of this cache's lock that takes `response` to a source read of
    /// `range` under `key` gave `answer`, and found and left what `passage`
    /// says.
    pub closed spec fn deliver_entered<E>(
        self,
        key: K,
        range: Range<usize>,
        response: Result<Bytes, E>,
        passage: Passage<CacheView<K::V>>,
        answer: Result<Bytes, ReadError<E>>,
    ) -> bool {
        call_ensures(
            with_lock::<State<K>, DeliverRequest<K, E>, Reply<K, Result<Bytes, ReadError<E>>>, _>,
            (
                &*self.inner,
                State::<K>::deliver::<E>,
                DeliverRequest { capacity: self.capacity, key, range, response },
            ),
            (answer, Ghost(passage)),
        )
    }

    /// An operation on this cache that takes `response` to a source read of
    /// `range` under `key`.
    pub open spec fn delivered<E>(
        self,
        key: K,
        range: Range<usize>,
        response: Result<Bytes, E>,
        passage: Passage<CacheView<K::V>>,
        answer: Result<Bytes, ReadError<E>>,
    ) -> bool {
        &&& self.deliver_entered(key, range, response, passage, answer)
        &&& self.passes(passage)
        &&& delivers(
            passage.before,
            passage.after,
            self.policy().limit(),
            key@,
            range,
            response,
            answer,
        )
    }

    /// The section that lists the gaps of `range` under `key`, by its name.
    pub closed spec fn missing_section(self, key: &K, range: Range<usize>) -> int {
        section(
            (
                &*self.inner,
                State::<K>::missing_ranges,
                RangeRequest { capacity: self.capacity, key, range },
            ),
        )
    }

    /// A section of this cache's lock that lists the gaps of `range` under
    /// `key` gave `answer`, and found and left what `passage` says.
    pub closed spec fn missing_entered(
        self,
        key: &K,
        range: Range<usize>,
        passage: Passage<CacheView<K::V>>,
        answer: Result<Vec<Range<usize>>, RangeError>,
    ) -> bool {
        call_ensures(
            with_lock::<
                State<K>,
                RangeRequest<'_, K>,
                Reply<K, Result<Vec<Range<usize>>, RangeError>>,
                _,
            >,
            (
                &*self.inner,
                State::<K>::missing_ranges,
                RangeRequest { capacity: self.capacity, key, range },
            ),
            (answer, Ghost(passage)),
        )
    }

    /// An operation on this cache that lists the gaps of `range` under `key`.
    pub open spec fn listed(
        self,
        key: &K,
        range: Range<usize>,
        passage: Passage<CacheView<K::V>>,
        answer: Result<Vec<Range<usize>>, RangeError>,
    ) -> bool {
        &&& self.missing_entered(key, range, passage, answer)
        &&& self.passes(passage)
        &&& passage.after == passage.before
        &&& lists_gaps(passage.before, key@, range, answer)
    }

    /// The section that drops what is cached under `key`, by its name.
    pub closed spec fn invalidate_section(self, key: &K) -> int {
        section((&*self.inner, State::<K>::invalidate, KeyRequest { capacity: self.capacity, key }))
    }

    /// A section of this cache's lock that drops what is cached under `key`
    /// gave `answer`, and found and left what `passage` says.
    pub closed spec fn invalidate_entered(
        self,
        key: &K,
        passage: Passage<CacheView<K::V>>,
        answer: Invalidation,
    ) -> bool {
        call_ensures(
            with_lock::<State<K>, KeyRequest<'_, K>, Reply<K, Invalidation>, _>,
            (&*self.inner, State::<K>::invalidate, KeyRequest { capacity: self.capacity, key }),
            (answer, Ghost(passage)),
        )
    }

    /// An operation on this cache that drops what is cached under `key`.
    pub open spec fn invalidated(
        self,
        key: &K,
        passage: Passage<CacheView<K::V>>,
        answer: Invalidation,
    ) -> bool {
        &&& self.invalidate_entered(key, passage, answer)
        &&& self.passes(passage)
        &&& invalidates(passage.before, passage.after, key@, answer)
    }

    /// The section that drops everything, by its name.
    pub closed spec fn clear_section(self) -> int {
        section((&*self.inner, State::<K>::clear, WholeRequest { capacity: self.capacity }))
    }

    /// A section of this cache's lock that drops everything gave `answer`, and
    /// found and left what `passage` says.
    pub closed spec fn clear_entered(
        self,
        passage: Passage<CacheView<K::V>>,
        answer: Invalidation,
    ) -> bool {
        call_ensures(
            with_lock::<State<K>, WholeRequest, Reply<K, Invalidation>, _>,
            (&*self.inner, State::<K>::clear, WholeRequest { capacity: self.capacity }),
            (answer, Ghost(passage)),
        )
    }

    /// An operation on this cache that drops everything.
    pub open spec fn cleared(
        self,
        passage: Passage<CacheView<K::V>>,
        answer: Invalidation,
    ) -> bool {
        &&& self.clear_entered(passage, answer)
        &&& self.passes(passage)
        &&& clears(passage.before, passage.after, answer)
    }

    /// The section that reports the state and the statistics, by its name.
    pub closed spec fn snapshot_section(self) -> int {
        section((&*self.inner, State::<K>::snapshot, WholeRequest { capacity: self.capacity }))
    }

    /// A section of this cache's lock that reports the state and the statistics
    /// gave `answer`, and found and left what `passage` says.
    pub closed spec fn snapshot_entered(
        self,
        passage: Passage<CacheView<K::V>>,
        answer: CacheSnapshot,
    ) -> bool {
        call_ensures(
            with_lock::<State<K>, WholeRequest, Reply<K, CacheSnapshot>, _>,
            (&*self.inner, State::<K>::snapshot, WholeRequest { capacity: self.capacity }),
            (answer, Ghost(passage)),
        )
    }

    /// An operation on this cache that reports the state and the statistics.
    pub open spec fn reported(
        self,
        passage: Passage<CacheView<K::V>>,
        answer: CacheSnapshot,
    ) -> bool {
        &&& self.snapshot_entered(passage, answer)
        &&& self.passes(passage)
        &&& passage.after == passage.before
        &&& reports(passage.before, self.policy(), answer)
    }

    /// Creates an empty cache with an explicit capacity policy.
    #[must_use]
    pub fn new(capacity: CacheCapacity) -> (cache: Self)
        ensures
            cache.policy() == capacity,
            cache.made_with(CacheView::<K::V>::empty()),
    {
        let state = State { store: RangeStore::new(), capacity };
        let lock = new_lock(state);
        assert(call_ensures(new_lock::<State<K>>, (state,), lock));
        let cache = Self { inner: Arc::new(lock), capacity };
        assert(*cache.inner == lock);
        cache
    }

    /// Returns the configured capacity policy.
    #[must_use]
    pub fn capacity(&self) -> (capacity: CacheCapacity)
        ensures
            capacity == self.policy(),
        opens_invariants none
    {
        self.capacity
    }

    /// Adds the bytes of `range` under `key`.
    ///
    /// The payload replaces what is cached of its range, keeps what is cached
    /// outside it, and merges with the blocks that it overlaps or is adjacent
    /// to.  The merged block is the most recently used.  A range that is cached
    /// already is left alone, and so is every block if the merged block could
    /// not respect the capacity.
    pub fn insert(&self, key: K, range: Range<usize>, payload: Bytes) -> (answer: Result<
        InsertOutcome,
        RangeError,
    >)
        ensures
            some_insert(self.policy().limit(), key@, range, payload_view(payload), answer),
            exists|passage: Passage<CacheView<K::V>>| #[trigger]
                self.inserted(key, range, payload, passage, answer),
        opens_invariants [self.insert_section(key, range, payload)]
    {
        let (answer, passage) = with_lock(
            &self.inner,
            State::<K>::insert,
            InsertRequest { capacity: self.capacity, key, range, payload },
        );
        assert(self.inserted(key, range, payload, passage@, answer));
        answer
    }

    /// Returns the bytes of `range` under `key` if all of them are cached.
    ///
    /// A hit shares the memory of the cached block.  The blocks that the range
    /// overlaps become the most recently used.
    pub fn get(&self, key: &K, range: Range<usize>) -> (answer: Result<Option<Bytes>, RangeError>)
        ensures
            some_read(self.policy().limit(), key@, range, answer),
            exists|passage: Passage<CacheView<K::V>>| #[trigger]
                self.got(key, range, passage, answer),
        opens_invariants [self.get_section(key, range)]
    {
        let (answer, passage) = with_lock(
            &self.inner,
            State::<K>::get,
            RangeRequest { capacity: self.capacity, key, range },
        );
        assert(self.got(key, range, passage@, answer));
        answer
    }

    /// Cuts `range` into the parts that are cached under `key` and those that
    /// are not, and counts as a read of it.
    pub fn plan(&self, key: &K, range: Range<usize>) -> (answer: Result<Vec<Segment>, RangeError>)
        ensures
            some_plan(self.policy().limit(), key@, range, answer),
            exists|passage: Passage<CacheView<K::V>>| #[trigger]
                self.planned(key, range, passage, answer),
        opens_invariants [self.plan_section(key, range)]
    {
        let (answer, passage) = with_lock(
            &self.inner,
            State::<K>::plan,
            RangeRequest { capacity: self.capacity, key, range },
        );
        assert(self.planned(key, range, passage@, answer));
        answer
    }

    /// Checks the response of a source to a read of `range` under `key` and
    /// keeps accepted bytes.
    ///
    /// The bytes are returned even if they are too large to keep.
    pub fn deliver<E>(&self, key: K, range: Range<usize>, response: Result<Bytes, E>) -> (answer: 
        Result<Bytes, ReadError<E>>)
        ensures
            accepts(range, response, answer),
            some_delivery(self.policy().limit(), key@, range, response, answer),
            exists|passage: Passage<CacheView<K::V>>| #[trigger]
                self.delivered(key, range, response, passage, answer),
        opens_invariants [self.deliver_section(key, range, response)]
    {
        let (answer, passage) = with_lock(
            &self.inner,
            State::<K>::deliver::<E>,
            DeliverRequest { capacity: self.capacity, key, range, response },
        );
        assert(self.delivered(key, range, response, passage@, answer));
        answer
    }

    /// Lists the parts of `range` that are not cached under `key`.
    pub fn missing_ranges(&self, key: &K, range: Range<usize>) -> (answer: Result<
        Vec<Range<usize>>,
        RangeError,
    >)
        ensures
            some_gaps(self.policy().limit(), key@, range, answer),
            exists|passage: Passage<CacheView<K::V>>| #[trigger]
                self.listed(key, range, passage, answer),
        opens_invariants [self.missing_section(key, range)]
    {
        let (answer, passage) = with_lock(
            &self.inner,
            State::<K>::missing_ranges,
            RangeRequest { capacity: self.capacity, key, range },
        );
        assert(self.listed(key, range, passage@, answer));
        answer
    }

    /// Drops every block of `key` and reports how many blocks and bytes that
    /// were.
    pub fn invalidate(&self, key: &K) -> (answer: Invalidation)
        ensures
            some_invalidation(self.policy().limit(), key@, answer),
            exists|passage: Passage<CacheView<K::V>>| #[trigger]
                self.invalidated(key, passage, answer),
        opens_invariants [self.invalidate_section(key)]
    {
        let (answer, passage) = with_lock(
            &self.inner,
            State::<K>::invalidate,
            KeyRequest { capacity: self.capacity, key },
        );
        assert(self.invalidated(key, passage@, answer));
        answer
    }

    /// Drops every block and reports how many blocks and bytes that were.  The
    /// counters stay.
    pub fn clear(&self) -> (answer: Invalidation)
        ensures
            some_clearance::<K::V>(self.policy().limit(), answer),
            exists|passage: Passage<CacheView<K::V>>| #[trigger]
                self.cleared(passage, answer),
        opens_invariants [self.clear_section()]
    {
        let (answer, passage) = with_lock(
            &self.inner,
            State::<K>::clear,
            WholeRequest { capacity: self.capacity },
        );
        assert(self.cleared(passage@, answer));
        answer
    }

    /// Reports the state and the statistics at one point in time.
    pub fn snapshot(&self) -> (answer: CacheSnapshot)
        ensures
            some_report::<K::V>(self.policy(), answer),
            exists|passage: Passage<CacheView<K::V>>| #[trigger]
                self.reported(passage, answer),
        opens_invariants [self.snapshot_section()]
    {
        let (answer, passage) = with_lock(
            &self.inner,
            State::<K>::snapshot,
            WholeRequest { capacity: self.capacity },
        );
        assert(self.reported(passage@, answer));
        answer
    }
}

impl<K: CacheKey> Clone for RangeCache<K> {
    /// Returns a second handle to the same content.
    fn clone(&self) -> (copy: Self)
        ensures
            copy == *self,
            copy.shares(*self),
    {
        Self { inner: share(&self.inner), capacity: self.capacity }
    }
}

} // verus!
