//! The calls into `std::sync` that share one value between threads.

use vstd::prelude::*;
use std::sync::Arc;
use std::sync::Mutex;
use std::sync::MutexGuard;
use std::sync::PoisonError;
use crate::rate_limiter::{Limiter, LimiterView};

verus! {

/// `std::sync::Mutex`, carried through as it is.
#[verifier::external_type_specification]
#[verifier::external_body]
#[verifier::reject_recursive_types(T)]
pub struct ExMutex<T: ?Sized>(Mutex<T>);

/// `std::sync::MutexGuard`, carried through as it is.
#[verifier::external_type_specification]
#[verifier::external_body]
#[verifier::reject_recursive_types(T)]
pub struct ExMutexGuard<'a, T: ?Sized + 'a>(MutexGuard<'a, T>);

/// The state of the limiter that a lock held when the lock was made.
/// What the lock holds later is whatever its last holder left there, and
/// has no name.
pub uninterp spec fn made_with(mutex: Mutex<Limiter>) -> LimiterView;

/// Puts `limiter` behind a new lock, with `Mutex::new`.
///
/// Trusted: the new lock holds the limiter that was handed in.
#[verifier::external_body]
pub(crate) fn new_mutex(limiter: Limiter) -> (mutex: Mutex<Limiter>)
    ensures
        made_with(mutex) == limiter@,
{
    Mutex::new(limiter)
}

/// Another pointer to the value behind `handle`, with `Arc::clone`.
///
/// Trusted: the copy points to the very value that the handle points to.
#[verifier::external_body]
pub(crate) fn share<T>(handle: &Arc<T>) -> (copy: Arc<T>)
    ensures
        copy == *handle,
{
    Arc::clone(handle)
}

/// Waits for the lock with `Mutex::lock` and takes it. A lock that a
/// panicking holder has poisoned is taken all the same.
///
/// Trusted, and nothing is claimed of the value behind the lock.
#[verifier::external_body]
pub(crate) fn lock<'a, T>(mutex: &'a Mutex<T>) -> MutexGuard<'a, T> {
    mutex.lock().unwrap_or_else(PoisonError::into_inner)
}

/// The value behind a lock that is held, through `DerefMut` for
/// `MutexGuard`.
///
/// Trusted, and nothing is claimed of the value.
#[verifier::external_body]
pub(crate) fn guarded<'a, 'b, T>(guard: &'a mut MutexGuard<'b, T>) -> &'a mut T {
    &mut **guard
}

} // verus!
