//! Shared access to the layout tree: blocking and non-blocking acquisition
//! of a mutex-guarded tree, and the independently locked slot recording the
//! most recently applied action. The caller owns the mutexes (typically in
//! process-wide statics) and passes them in.

use vstd::prelude::*;

use crate::container::Direction;
use crate::tree::Tree;

verus! {

/// The most recently applied layout action, recorded for coalescing of
/// rapid repeated requests.
#[derive(Clone, Copy, Debug, PartialEq, Eq, Structural)]
pub enum Action {
    Focus(Direction),
    Move(Direction),
    Resize(Direction, i32),
}

/// Why a lock was not acquired.
#[derive(Clone, Copy, Debug, PartialEq, Eq, Structural)]
pub enum LockError {
    /// The lock is currently held elsewhere; try again later.
    Contended,
    /// A previous holder panicked mid-mutation; the guarded state is no
    /// longer trustworthy.
    Poisoned,
}

#[verifier::external_type_specification]
#[verifier::external_body]
#[verifier::reject_recursive_types(T)]
pub struct ExMutex<T: ?Sized>(std::sync::Mutex<T>);

#[verifier::external_type_specification]
#[verifier::external_body]
#[verifier::reject_recursive_types(T)]
pub struct ExMutexGuard<'a, T: ?Sized + 'a>(std::sync::MutexGuard<'a, T>);

/// Relies on std::sync::Mutex::try_lock: returns the guard when the lock was
/// free, and otherwise reports contention or poisoning as its documentation
/// describes. Nothing can be promised about which outcome occurs.
#[verifier::external_body]
fn mutex_try_lock<'a, T>(m: &'a std::sync::Mutex<T>) -> (r: Result<
    std::sync::MutexGuard<'a, T>,
    LockError,
>)
    ensures
        r is Err ==> (r matches Err(e) && (e == LockError::Contended || e
            == LockError::Poisoned)),
{
    match m.try_lock() {
        Ok(g) => Ok(g),
        Err(std::sync::TryLockError::WouldBlock) => Err(LockError::Contended),
        Err(std::sync::TryLockError::Poisoned(_)) => Err(LockError::Poisoned),
    }
}

/// Relies on std::sync::Mutex::lock: blocks until the lock is held and fails
/// only when the mutex is poisoned. std leaves a re-entrant lock by the
/// thread already holding it free to deadlock or panic; the engine's control
/// flow (acquire, act, release, no suspension inside a transaction) never
/// re-enters.
#[verifier::external_body]
fn mutex_lock<'a, T>(m: &'a std::sync::Mutex<T>) -> (r: Result<
    std::sync::MutexGuard<'a, T>,
    LockError,
>)
    ensures
        r matches Err(e) ==> e == LockError::Poisoned,
{
    match m.lock() {
        Ok(g) => Ok(g),
        Err(_) => Err(LockError::Poisoned),
    }
}

/// Attempt to lock the tree without blocking. Fails with `Contended` when
/// the lock is already held, with `Poisoned` when a previous holder
/// panicked.
pub fn try_lock_tree<'a>(tree: &'a std::sync::Mutex<Tree>) -> (r: Result<
    std::sync::MutexGuard<'a, Tree>,
    LockError,
>)
    ensures
        r is Err ==> (r matches Err(e) && (e == LockError::Contended || e
            == LockError::Poisoned)),
{
    mutex_try_lock(tree)
}

/// Lock the tree, waiting as long as it takes. Fails only when the lock is
/// poisoned.
pub fn lock_tree<'a>(tree: &'a std::sync::Mutex<Tree>) -> (r: Result<
    std::sync::MutexGuard<'a, Tree>,
    LockError,
>)
    ensures
        r is Err ==> r == Result::<std::sync::MutexGuard<'a, Tree>, LockError>::Err(
            LockError::Poisoned,
        ),
{
    mutex_lock(tree)
}

/// Attempt to lock the slot recording the most recent action, without
/// blocking. Fails with `Contended` when the lock is already held, with
/// `Poisoned` when a previous holder panicked.
pub fn try_lock_action<'a>(slot: &'a std::sync::Mutex<Option<Action>>) -> (r: Result<
    std::sync::MutexGuard<'a, Option<Action>>,
    LockError,
>)
    ensures
        r is Err ==> (r matches Err(e) && (e == LockError::Contended || e
            == LockError::Poisoned)),
{
    mutex_try_lock(slot)
}

} // verus!
