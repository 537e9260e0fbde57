//! What the library believes of `parking_lot::Mutex` and of `Arc::clone`.
//!
//! The value behind a lock is whatever the last holder left there, so nothing
//! is said of it beyond its type.  Types whose values always satisfy an
//! invariant keep it behind a lock as well.

use parking_lot::Mutex;
use std::sync::Arc;
use vstd::prelude::*;

verus! {

/// The type `parking_lot::RawMutex`, with nothing said of its fields.
#[verifier::external_type_specification]
#[verifier::external_body]
pub struct ExRawMutex(parking_lot::RawMutex);

/// The type `lock_api::Mutex`, of which `parking_lot::Mutex<T>` is the case
/// with `parking_lot::RawMutex`, with nothing said of its fields.
#[verifier::external_type_specification]
#[verifier::external_body]
#[verifier::reject_recursive_types(R)]
#[verifier::reject_recursive_types(T)]
pub struct ExMutex<R, T: ?Sized>(parking_lot::lock_api::Mutex<R, T>);

/// `Mutex::new` returns an unlocked mutex around `value`.  What is behind a
/// lock can change at any time, so no contract speaks of it.
#[verifier::external_body]
pub(crate) fn new_lock<T>(value: T) -> (lock: Mutex<T>) {
    Mutex::new(value)
}

/// A name for a critical section: some number that depends on the lock, on the
/// work done under it and on the request that the work is done for.
///
/// A function whose `opens_invariants` clause lists such names enters these
/// sections and no others: it cannot reach another lock, do other work under
/// the same lock, or do the same work for another request.
pub open spec fn section<X>(entered: X) -> int {
    arbitrary::<spec_fn(X) -> int>()(entered)
}

/// What a critical section found behind the lock, and what it left there.
pub struct Passage<C> {
    /// What it found.
    pub before: C,
    /// What it left.
    pub after: C,
}

/// `Mutex::lock` waits until no one else holds the lock and then gives
/// exclusive access to the value behind it. The answer is one that `work` can
/// give to `request` on some value of that type, and the section of `work` on
/// this lock is the only one entered. Locking a lock that the same thread holds
/// never returns, which is not expressible here: `work` must not reach `lock`.
#[verifier::external_body]
pub(crate) fn with_lock<T, Q, A, F: FnOnce(&mut T, Q) -> A>(
    lock: &Mutex<T>,
    work: F,
    request: Q,
) -> (answer: A)
    requires
        forall|value: &mut T| #[trigger] work.requires((value, request)),
    ensures
        exists|value: &mut T| #[trigger] work.ensures((value, request), answer),
    opens_invariants [section((lock, work, request))]
{
    work(&mut *lock.lock(), request)
}

/// `Arc::clone` returns a second handle to the same value.
#[verifier::external_body]
pub(crate) fn share<T: ?Sized>(handle: &Arc<T>) -> (copy: Arc<T>)
    ensures
        copy == *handle,
{
    Arc::clone(handle)
}

} // verus!
