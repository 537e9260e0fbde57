//! Read-through: what a cached reader decides before, between and after its
//! source reads.
//!
//! A read first plans which bytes the cache has.  Each gap becomes a request in
//! the reader's [`FetchTable`].  What the source returns for a gap is checked,
//! kept in the cache, and handed to all who asked for the same gap.  In the end
//! the read joins its segments.

use crate::cache::{some_delivery, some_plan, RangeCache};
use crate::capacity::{law_value_determines_the_number, CacheCapacity, NonZeroUsize};
use crate::error::{check_range, range_fault, RangeError};
use crate::fetch::{
    enters, finishes, followers_led, leaders_distinct, polls, running, FetchTable, Slots, Turn,
};
use crate::key::CacheKey;
use crate::lock::{new_lock, section, share, with_lock, Passage};
use crate::payload::{optional_view, payload_view};
use crate::plan::{assemble, fill, filled, joined, open_count, Segment};
use crate::store::RangeStore;
use crate::view::CacheView;
use bytes::Bytes;
use parking_lot::Mutex;
use std::ops::Range;
use std::sync::Arc;
use vstd::prelude::*;

verus! {

/// Configuration for a [`CachedReader`].
#[derive(Clone, Copy, Debug, Eq, PartialEq, Structural)]
pub struct ReaderConfig {
    max_fetch_concurrency: NonZeroUsize,
}

impl ReaderConfig {
    /// The concurrency limit.
    pub closed spec fn limit(self) -> NonZeroUsize {
        self.max_fetch_concurrency
    }

    /// Creates a configuration with an explicitly non-zero concurrency limit.
    #[must_use]
    pub fn new(max_fetch_concurrency: NonZeroUsize) -> (config: Self)
        ensures
            config.limit() == max_fetch_concurrency,
    {
        Self { max_fetch_concurrency }
    }

    /// Returns the maximum number of source reads under way at one time.
    #[must_use]
    pub fn max_fetch_concurrency(self) -> (limit: NonZeroUsize)
        ensures
            limit == self.limit(),
    {
        self.max_fetch_concurrency
    }
}

/// Two configurations are equal exactly if their limits are.
pub proof fn law_limit_determines_the_configuration(left: ReaderConfig, right: ReaderConfig)
    ensures
        left == right <==> left.limit() == right.limit(),
        left == right <==> left.limit().value() == right.limit().value(),
{
    law_value_determines_the_number(left.limit(), right.limit());
}

/// A read-through failure.
#[derive(Debug)]
pub enum ReadError<E> {
    /// Invalid range or cache payload.
    Range(RangeError),
    /// Source-specific failure.
    Source(E),
    /// The source returned fewer or more bytes than requested.
    ShortRead {
        /// Requested byte range.
        range: Range<usize>,
        /// Required byte length.
        expected: usize,
        /// Actual byte length.
        actual: usize,
    },
}

impl<E> From<RangeError> for ReadError<E> {
    fn from(error: RangeError) -> (failure: Self) {
        ReadError::Range(error)
    }
}

impl<E> vstd::std_specs::convert::FromSpecImpl<RangeError> for ReadError<E> {
    open spec fn obeys_from_spec() -> bool {
        true
    }

    open spec fn from_spec(error: RangeError) -> Self {
        ReadError::Range(error)
    }
}

/// `answer` is what the response of a source to a read of `range` comes to: its
/// bytes if they are as many as were asked for.
pub open spec fn accepts<E>(
    range: Range<usize>,
    response: Result<Bytes, E>,
    answer: Result<Bytes, ReadError<E>>,
) -> bool {
    if let Some(fault) = range_fault(range) {
        answer == Err::<Bytes, ReadError<E>>(ReadError::Range(fault))
    } else {
        match response {
            Err(error) => answer == Err::<Bytes, ReadError<E>>(ReadError::Source(error)),
            Ok(bytes) => {
                let expected = range.end - range.start;
                let actual = payload_view(bytes).len();
                if actual != expected {
                    answer == Err::<Bytes, ReadError<E>>(
                        ReadError::ShortRead {
                            range,
                            expected: expected as usize,
                            actual: actual as usize,
                        },
                    )
                } else {
                    answer == Ok::<Bytes, ReadError<E>>(bytes)
                }
            },
        }
    }
}

/// What the response of a source to a read of `range` comes to.
pub open spec fn acceptance<E>(range: Range<usize>, response: Result<Bytes, E>) -> Result<
    Bytes,
    ReadError<E>,
> {
    choose|answer: Result<Bytes, ReadError<E>>| accepts(range, response, answer)
}

/// Checks the response of a source to a read of `range`.
pub fn accept<E>(range: &Range<usize>, response: Result<Bytes, E>) -> (answer: Result<
    Bytes,
    ReadError<E>,
>)
    ensures
        accepts(*range, response, answer),
{
    if let Err(fault) = check_range(range) {
        return Err(ReadError::Range(fault));
    }
    match response {
        Err(error) => Err(ReadError::Source(error)),
        Ok(bytes) => {
            let expected: usize = range.end - range.start;
            let actual: usize = bytes.len();
            if actual != expected {
                Err(ReadError::ShortRead { range: range.start..range.end, expected, actual })
            } else {
                Ok(bytes)
            }
        },
    }
}

/// Taking the response of a source to a read of `range` under `key`: bytes that
/// are accepted are inserted, and nothing else changes the cache.
pub open spec fn delivers<Q, E>(
    before: CacheView<Q>,
    after: CacheView<Q>,
    limit: Option<nat>,
    key: Q,
    range: Range<usize>,
    response: Result<Bytes, E>,
    answer: Result<Bytes, ReadError<E>>,
) -> bool {
    &&& accepts(range, response, answer)
    &&& after == match answer {
        Ok(bytes) => before.after_insert(limit, key, range.start as int, payload_view(bytes)),
        Err(_) => before,
    }
}

/// Checks the response of a source to a read of `range` under `key` and keeps
/// accepted bytes in `store`.
///
/// The bytes are returned even if they are too large to keep.
pub fn deliver<K: CacheKey, E>(
    store: &mut RangeStore<K>,
    capacity: CacheCapacity,
    key: K,
    range: Range<usize>,
    response: Result<Bytes, E>,
) -> (answer: Result<Bytes, ReadError<E>>)
    requires
        old(store).wf(),
    ensures
        final(store).wf(),
        delivers(old(store)@, final(store)@, capacity.limit(), key@, range, response, answer),
{
    let bytes = accept(&range, response)?;
    let kept = store.insert(capacity, key, range, bytes.clone());
    assert(kept is Ok);
    Ok(bytes)
}

/// The bytes of responses that are all accepted.
pub open spec fn bytes_of<E>(fetched: Seq<Result<Bytes, ReadError<E>>>) -> Seq<Bytes> {
    fetched.map_values(|response: Result<Bytes, ReadError<E>>| response->Ok_0)
}

/// `answer` is what a planned read comes to when its gaps came to `fetched`:
/// the error of the first gap that failed, or else all bytes in order.
pub open spec fn concludes<E>(
    segments: Seq<Segment>,
    fetched: Seq<Result<Bytes, ReadError<E>>>,
    answer: Result<Bytes, ReadError<E>>,
) -> bool {
    match answer {
        Ok(bytes) => {
            &&& forall|i: int| 0 <= i < fetched.len() ==> (#[trigger] fetched[i]) is Ok
            &&& payload_view(bytes) == joined(filled(segments, bytes_of(fetched)))
        },
        Err(error) => exists|n: int|
            {
                &&& 0 <= n < fetched.len()
                &&& #[trigger] fetched[n] == Err::<Bytes, ReadError<E>>(error)
                &&& forall|i: int| 0 <= i < n ==> (#[trigger] fetched[i]) is Ok
            },
    }
}

/// Joins the segments of a planned read when what its gaps came to is known.
pub fn conclude<E>(segments: Vec<Segment>, fetched: Vec<Result<Bytes, ReadError<E>>>) -> (answer:
    Result<Bytes, ReadError<E>>)
    requires
        open_count(segments@) == fetched@.len(),
    ensures
        concludes(segments@, fetched@, answer),
{
    let ghost responses = fetched@;
    let mut arrived: Vec<Bytes> = Vec::new();
    for response in it: fetched.into_iter()
        invariant
            it.seq() == responses,
            arrived@.len() == it.index(),
            forall|i: int| 0 <= i < it.index() ==> (#[trigger] responses[i]) is Ok,
            arrived@ =~= bytes_of(responses).take(it.index() as int),
    {
        assert(responses[it.index() as int] == response);
        match response {
            Ok(bytes) => {
                arrived.push(bytes);
            },
            Err(error) => {
                return Err(error);
            },
        }
    }
    assert(arrived@ =~= bytes_of(responses));
    let full = fill(segments, &arrived);
    match assemble(&full) {
        Some(bytes) => Ok(bytes),
        None => {
            assert(false);
            Ok(Bytes::new())
        },
    }
}

/// A table in order and the limit on source reads that it respects, for use
/// behind a lock.
struct Flights<K: CacheKey> {
    table: FetchTable<K>,
    limit: NonZeroUsize,
}

/// A request to enter a request for bytes.
struct JoinRequest<K> {
    limit: NonZeroUsize,
    key: K,
    range: Range<usize>,
}

/// A request about the request with a number.
struct NumberRequest {
    limit: NonZeroUsize,
    id: usize,
}

/// A request to take out the request with a number, which came to `answer`.
struct SettleRequest<'a, E> {
    limit: NonZeroUsize,
    id: usize,
    answer: &'a Result<Bytes, ReadError<E>>,
}

/// The answer to a request, and the requests of the table before and after it.
type Reply<K, A> = (A, Ghost<Passage<Slots<<K as View>::V>>>);

impl<K: CacheKey> Flights<K> {
    #[verifier::type_invariant]
    spec fn within_limit(self) -> bool {
        self.table.wf() && running(self.table@) <= self.limit.value()
    }

    /// What an operation of a handle with the limit `limit` finds: the requests
    /// of the table.
    ///
    /// All handles to one table have the limit that the table was made with.  A
    /// handle with another one would find no requests.
    spec fn found(self, limit: NonZeroUsize) -> Slots<K::V> {
        if self.limit == limit {
            self.table@
        } else {
            Slots::<K::V>::empty()
        }
    }

    /// An operation of a handle with the limit `limit` took the requests from
    /// `self` to `after`: it found them in order and within the limit, and left
    /// them so under the same limit.  `passage` records both.
    spec fn leads_to(
        self,
        after: Self,
        limit: NonZeroUsize,
        passage: Passage<Slots<K::V>>,
    ) -> bool {
        &&& passage.before == self.found(limit)
        &&& passage.after == after.table@
        &&& in_order(passage.before, limit.value() as nat)
        &&& in_order(passage.after, limit.value() as nat)
        &&& after.limit == limit
    }

    /// Takes the table out and leaves an empty one.
    fn take(&mut self, limit: NonZeroUsize) -> (table: FetchTable<K>)
        ensures
            table.wf(),
            table@ == old(self).found(limit),
            in_order(table@, limit.value() as nat),
            final(self).limit == limit,
    {
        proof {
            use_type_invariant(&*self);
        }
        let mut table = FetchTable::new();
        std::mem::swap(&mut table, &mut self.table);
        if self.limit != limit {
            table = FetchTable::new();
            self.limit = limit;
        }
        table
    }

    /// Enters a request.
    fn join(&mut self, request: JoinRequest<K>) -> (reply: Reply<K, usize>)
        ensures
            old(self).leads_to(*final(self), request.limit, reply.1@),
            enters(
                reply.1@.before,
                reply.1@.after,
                request.key@,
                request.range.start as int,
                request.range.end as int,
                reply.0 as int,
            ),
    {
        let mut table = self.take(request.limit);
        let ghost before = table@;
        let id: usize = table.join(request.key, request.range);
        let ghost after = table@;
        self.table = table;
        (id, Ghost(Passage { before, after }))
    }

    /// Asks for the turn of a request.
    fn poll(&mut self, request: NumberRequest) -> (reply: Reply<K, Turn>)
        ensures
            old(self).leads_to(*final(self), request.limit, reply.1@),
            polls(
                reply.1@.before,
                reply.1@.after,
                request.limit.value() as nat,
                request.id as int,
                reply.0,
            ),
    {
        let mut table = self.take(request.limit);
        let ghost before = table@;
        let turn = table.poll(request.limit, request.id);
        let ghost after = table@;
        self.table = table;
        (turn, Ghost(Passage { before, after }))
    }

    /// Takes a request out.
    fn finish(&mut self, limit: NonZeroUsize, id: usize, bytes: Option<Bytes>) -> (reply: Reply<
        K,
        bool,
    >)
        ensures
            old(self).leads_to(*final(self), limit, reply.1@),
            finishes(
                reply.1@.before,
                reply.1@.after,
                id as int,
                optional_view(bytes),
                reply.0,
            ),
    {
        let mut table = self.take(limit);
        let ghost before = table@;
        let known: bool = table.finish(id, bytes);
        let ghost after = table@;
        self.table = table;
        (known, Ghost(Passage { before, after }))
    }

    /// Takes out a request that hands over nothing.
    fn abandon(&mut self, request: NumberRequest) -> (reply: Reply<K, bool>)
        ensures
            old(self).leads_to(*final(self), request.limit, reply.1@),
            finishes(reply.1@.before, reply.1@.after, request.id as int, None, reply.0),
    {
        self.finish(request.limit, request.id, None)
    }

    /// Takes out a request that hands over the bytes it came to, if any.
    fn settle<E>(&mut self, request: SettleRequest<'_, E>) -> (reply: Reply<K, bool>)
        ensures
            old(self).leads_to(*final(self), request.limit, reply.1@),
            finishes(
                reply.1@.before,
                reply.1@.after,
                request.id as int,
                handed_over(*request.answer),
                reply.0,
            ),
    {
        let handed: Option<Bytes> = match request.answer {
            Ok(bytes) => Some(bytes.clone()),
            Err(_) => None,
        };
        self.finish(request.limit, request.id, handed)
    }
}

/// The requests are in order, and no more of them than the limit read from the
/// source.
pub open spec fn in_order<Q>(slots: Slots<Q>, limit: nat) -> bool {
    leaders_distinct(slots) && followers_led(slots) && running(slots) <= limit
}

/// What a reader with a limit on source reads promises of entering a request.
pub open spec fn some_entry<Q>(limit: nat, key: Q, range: Range<usize>, id: usize) -> bool {
    exists|before: Slots<Q>, after: Slots<Q>|
        in_order(before, limit) && in_order(after, limit) && #[trigger] enters(
            before,
            after,
            key,
            range.start as int,
            range.end as int,
            id as int,
        )
}

/// What a reader with a limit on source reads promises of asking for the turn
/// of a request.
pub open spec fn some_turn<Q>(limit: nat, id: usize, turn: Turn) -> bool {
    exists|before: Slots<Q>, after: Slots<Q>|
        in_order(before, limit) && in_order(after, limit) && #[trigger] polls(
            before,
            after,
            limit,
            id as int,
            turn,
        )
}

/// What a reader with a limit on source reads promises of taking out a request
/// that hands over `bytes`.
pub open spec fn some_departure<Q>(
    limit: nat,
    id: usize,
    bytes: Option<Seq<u8>>,
    known: bool,
) -> bool {
    exists|before: Slots<Q>, after: Slots<Q>|
        in_order(before, limit) && in_order(after, limit) && #[trigger] finishes(
            before,
            after,
            id as int,
            bytes,
            known,
        )
}

/// What a request hands to those who share it: the accepted bytes, if any.
pub open spec fn handed_over<E>(answer: Result<Bytes, ReadError<E>>) -> Option<Seq<u8>> {
    match answer {
        Ok(bytes) => Some(payload_view(bytes)),
        Err(_) => None,
    }
}

/// A read-through adapter over a source.
///
/// Clones share the source, the cache and the requests.  Each operation on the
/// requests is one critical section: what it leaves is what the next one on the
/// same lock finds.
#[verifier::reject_recursive_types(K)]
pub struct CachedReader<K: CacheKey, R: ?Sized> {
    source: Arc<R>,
    cache: RangeCache<K>,
    config: ReaderConfig,
    flights: Arc<Mutex<Flights<K>>>,
}

impl<K: CacheKey, R: ?Sized> CachedReader<K, R> {
    /// The wrapped source.
    pub closed spec fn wrapped(self) -> Arc<R> {
        self.source
    }

    /// The shared cache.
    pub closed spec fn shared(self) -> RangeCache<K> {
        self.cache
    }

    /// The configuration.
    pub closed spec fn settings(self) -> ReaderConfig {
        self.config
    }

    /// The configured limit on source reads.
    pub open spec fn most(self) -> nat {
        self.settings().limit().value() as nat
    }

    /// The lock on the requests was made around `slots`.
    pub closed spec fn made_with(self, slots: Slots<K::V>) -> bool {
        exists|flights: Flights<K>|
            {
                &&& #[trigger] call_ensures(new_lock::<Flights<K>>, (flights,), *self.flights)
                &&& flights.table@ == slots
                &&& flights.limit == self.config.limit()
            }
    }

    /// A section found and left the requests in order and within the limit.
    pub open spec fn passes(self, passage: Passage<Slots<K::V>>) -> bool {
        in_order(passage.before, self.most()) && in_order(passage.after, self.most())
    }

    /// The section that enters a request for `range` under `key`, by its name.
    pub closed spec fn join_section(self, key: K, range: Range<usize>) -> int {
        section(
            (
                &*self.flights,
                Flights::<K>::join,
                JoinRequest { limit: self.config.max_fetch_concurrency, key, range },
            ),
        )
    }

    /// A section of the lock on this reader's requests that enters a request
    /// for `range` under `key` gave `answer`, and found and left what `passage`
    /// says.
    pub closed spec fn join_entered(
        self,
        key: K,
        range: Range<usize>,
        passage: Passage<Slots<K::V>>,
        answer: usize,
    ) -> bool {
        call_ensures(
            with_lock::<Flights<K>, JoinRequest<K>, Reply<K, usize>, _>,
            (
                &*self.flights,
                Flights::<K>::join,
                JoinRequest { limit: self.config.max_fetch_concurrency, key, range },
            ),
            (answer, Ghost(passage)),
        )
    }

    /// An operation on this reader that enters a request for `range` under
    /// `key`.
    pub open spec fn joined(
        self,
        key: K,
        range: Range<usize>,
        passage: Passage<Slots<K::V>>,
        answer: usize,
    ) -> bool {
        &&& self.join_entered(key, range, passage, answer)
        &&& self.passes(passage)
        &&& enters(
            passage.before,
            passage.after,
            key@,
            range.start as int,
            range.end as int,
            answer as int,
        )
    }

    /// The section that asks for the turn of request `id`, by its name.
    pub closed spec fn poll_section(self, id: usize) -> int {
        section(
            (
                &*self.flights,
                Flights::<K>::poll,
                NumberRequest { limit: self.config.max_fetch_concurrency, id },
            ),
        )
    }

    /// A section of the lock on this reader's requests that asks for the turn
    /// of request `id` gave `answer`, and found and left what `passage` says.
    pub closed spec fn poll_entered(
        self,
        id: usize,
        passage: Passage<Slots<K::V>>,
        answer: Turn,
    ) -> bool {
        call_ensures(
            with_lock::<Flights<K>, NumberRequest, Reply<K, Turn>, _>,
            (
                &*self.flights,
                Flights::<K>::poll,
                NumberRequest { limit: self.config.max_fetch_concurrency, id },
            ),
            (answer, Ghost(passage)),
        )
    }

    /// An operation on this reader that asks for the turn of request `id`.
    pub open spec fn polled(
        self,
        id: usize,
        passage: Passage<Slots<K::V>>,
        answer: Turn,
    ) -> bool {
        &&& self.poll_entered(id, passage, answer)
        &&& self.passes(passage)
        &&& polls(passage.before, passage.after, self.most(), id as int, answer)
    }

    /// The section that gives up request `id`, by its name.
    pub closed spec fn abandon_section(self, id: usize) -> int {
        section(
            (
                &*self.flights,
                Flights::<K>::abandon,
                NumberRequest { limit: self.config.max_fetch_concurrency, id },
            ),
        )
    }

    /// A section of the lock on this reader's requests that gives up request
    /// `id` gave `answer`, and found and left what `passage` says.
    pub closed spec fn abandon_entered(
        self,
        id: usize,
        passage: Passage<Slots<K::V>>,
        answer: bool,
    ) -> bool {
        call_ensures(
            with_lock::<Flights<K>, NumberRequest, Reply<K, bool>, _>,
            (
                &*self.flights,
                Flights::<K>::abandon,
                NumberRequest { limit: self.config.max_fetch_concurrency, id },
            ),
            (answer, Ghost(passage)),
        )
    }

    /// An operation on this reader that gives up request `id`.
    pub open spec fn abandoned(
        self,
        id: usize,
        passage: Passage<Slots<K::V>>,
        answer: bool,
    ) -> bool {
        &&& self.abandon_entered(id, passage, answer)
        &&& self.passes(passage)
        &&& finishes(passage.before, passage.after, id as int, None, answer)
    }

    /// The section that takes out request `id`, which came to `outcome`, by its
    /// name.
    pub closed spec fn settle_section<E>(
        self,
        id: usize,
        outcome: Result<Bytes, ReadError<E>>,
    ) -> int {
        section(
            (
                &*self.flights,
                Flights::<K>::settle::<E>,
                SettleRequest { limit: self.config.max_fetch_concurrency, id, answer: &outcome },
            ),
        )
    }

    /// A section of the lock on this reader's requests that takes out request
    /// `id`, which came to `outcome` gave `answer`, and found and left what
    /// `passage` says.
    pub closed spec fn settle_entered<E>(
        self,
        id: usize,
        outcome: Result<Bytes, ReadError<E>>,
        passage: Passage<Slots<K::V>>,
        answer: bool,
    ) -> bool {
        call_ensures(
            with_lock::<Flights<K>, SettleRequest<'_, E>, Reply<K, bool>, _>,
            (
                &*self.flights,
                Flights::<K>::settle::<E>,
                SettleRequest { limit: self.config.max_fetch_concurrency, id, answer: &outcome },
            ),
            (answer, Ghost(passage)),
        )
    }

    /// An operation on this reader that takes out request `id`, which came to
    /// `outcome`.
    pub open spec fn settled<E>(
        self,
        id: usize,
        outcome: Result<Bytes, ReadError<E>>,
        passage: Passage<Slots<K::V>>,
        answer: bool,
    ) -> bool {
        &&& self.settle_entered(id, outcome, passage, answer)
        &&& self.passes(passage)
        &&& finishes(
            passage.before,
            passage.after,
            id as int,
            handed_over(outcome),
            answer,
        )
    }

    /// Wraps `source` with the provided cache and concurrency policy.
    #[must_use]
    pub fn new(source: Arc<R>, cache: RangeCache<K>, config: ReaderConfig) -> (reader: Self)
        ensures
            reader.wrapped() == source,
            reader.shared() == cache,
            reader.settings() == config,
            reader.made_with(Slots::<K::V>::empty()),
    {
        let flights = Flights { table: FetchTable::new(), limit: config.max_fetch_concurrency() };
        let lock = new_lock(flights);
        assert(call_ensures(new_lock::<Flights<K>>, (flights,), lock));
        let reader = Self { source, cache, config, flights: Arc::new(lock) };
        assert(*reader.flights == lock);
        reader
    }

    /// Returns the shared cache.
    #[must_use]
    pub fn cache(&self) -> (cache: &RangeCache<K>)
        ensures
            *cache == self.shared(),
        opens_invariants none
    {
        &self.cache
    }

    /// Returns the wrapped source.
    #[must_use]
    pub fn source(&self) -> (source: &Arc<R>)
        ensures
            *source == self.wrapped(),
        opens_invariants none
    {
        &self.source
    }

    /// Returns the reader configuration.
    #[must_use]
    pub fn config(&self) -> (config: ReaderConfig)
        ensures
            config == self.settings(),
        opens_invariants none
    {
        self.config
    }

    /// Begins a read: cuts `range` into the parts that are cached under `key`
    /// and those that have to come from the source.
    pub fn plan<E>(&self, key: &K, range: Range<usize>) -> (planned: Result<
        Vec<Segment>,
        ReadError<E>,
    >)
        ensures
            planned matches Err(error) ==> range_fault(range) is Some && error
                == ReadError::<E>::Range(range_fault(range).unwrap()),
            planned matches Ok(segments) ==> some_plan(
                self.shared().policy().limit(),
                key@,
                range,
                Ok::<Vec<Segment>, RangeError>(segments),
            ),
            planned matches Ok(segments) ==> exists|passage: Passage<CacheView<K::V>>| #[trigger]
                self.shared().planned(
                    key,
                    range,
                    passage,
                    Ok::<Vec<Segment>, RangeError>(segments),
                ),
        opens_invariants [self.shared().plan_section(key, range)]
    {
        match self.cache.plan(key, range) {
            Ok(segments) => Ok(segments),
            Err(error) => Err(ReadError::Range(error)),
        }
    }

    /// Enters a request for the bytes of `range` under `key` and returns its
    /// number.
    pub fn join(&self, key: K, range: Range<usize>) -> (id: usize)
        ensures
            some_entry(self.settings().limit().value() as nat, key@, range, id),
            exists|passage: Passage<Slots<K::V>>| #[trigger]
                self.joined(key, range, passage, id),
        opens_invariants [self.join_section(key, range)]
    {
        let (id, passage) = with_lock(
            &self.flights,
            Flights::<K>::join,
            JoinRequest { limit: self.config.max_fetch_concurrency, key, range },
        );
        assert(self.joined(key, range, passage@, id));
        id
    }

    /// Tells request `id` what to do next.
    ///
    /// It is told to read from the source only if fewer requests than the
    /// configured limit do.
    pub fn poll(&self, id: usize) -> (turn: Turn)
        ensures
            some_turn::<K::V>(self.settings().limit().value() as nat, id, turn),
            exists|passage: Passage<Slots<K::V>>| #[trigger] self.polled(id, passage, turn),
        opens_invariants [self.poll_section(id)]
    {
        let (turn, passage) = with_lock(
            &self.flights,
            Flights::<K>::poll,
            NumberRequest { limit: self.config.max_fetch_concurrency, id },
        );
        assert(self.polled(id, passage@, turn));
        turn
    }

    /// Gives up request `id` and tells whether it was still there.
    pub fn abandon(&self, id: usize) -> (known: bool)
        ensures
            some_departure::<K::V>(self.settings().limit().value() as nat, id, None, known),
            exists|passage: Passage<Slots<K::V>>| #[trigger] self.abandoned(id, passage, known),
        opens_invariants [self.abandon_section(id)]
    {
        let (known, passage) = with_lock(
            &self.flights,
            Flights::<K>::abandon,
            NumberRequest { limit: self.config.max_fetch_concurrency, id },
        );
        assert(self.abandoned(id, passage@, known));
        known
    }

    /// Takes what the source returned to request `id` for `range` under `key`:
    /// keeps accepted bytes in the cache, and hands them to all who share the
    /// request.
    pub fn settle<E>(
        &self,
        id: usize,
        key: K,
        range: Range<usize>,
        response: Result<Bytes, E>,
    ) -> (answer: Result<Bytes, ReadError<E>>)
        ensures
            accepts(range, response, answer),
            some_delivery(self.shared().policy().limit(), key@, range, response, answer),
            exists|known: bool| #[trigger]
                some_departure::<K::V>(
                    self.settings().limit().value() as nat,
                    id,
                    handed_over(answer),
                    known,
                ),
            exists|passage: Passage<CacheView<K::V>>| #[trigger]
                self.shared().delivered(key, range, response, passage, answer),
            exists|passage: Passage<Slots<K::V>>, known: bool| #[trigger]
                self.settled(id, answer, passage, known),
        opens_invariants
            [
                self.shared().deliver_section(key, range, response),
                self.settle_section(id, acceptance(range, response)),
            ]
    {
        let answer = self.cache.deliver(key, range, response);
        assert(answer == acceptance(range, response));
        let (known, passage) = with_lock(
            &self.flights,
            Flights::<K>::settle::<E>,
            SettleRequest { limit: self.config.max_fetch_concurrency, id, answer: &answer },
        );
        assert(self.settled(id, answer, passage@, known));
        assert(some_departure::<K::V>(
            self.settings().limit().value() as nat,
            id,
            handed_over(answer),
            known,
        ));
        answer
    }
}

impl<K: CacheKey, R: ?Sized> Clone for CachedReader<K, R> {
    /// Returns a second handle to the same source, cache and requests.
    fn clone(&self) -> (copy: Self)
        ensures
            copy == *self,
    {
        Self {
            source: share(&self.source),
            cache: self.cache.clone(),
            config: self.config,
            flights: share(&self.flights),
        }
    }
}

} // verus!
