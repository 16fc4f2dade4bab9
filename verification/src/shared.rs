//! Storage shared between tensors behind a reader-writer lock.
use crate::error::{Error, Result};
use std::sync::{Arc, RwLock, RwLockReadGuard};
use vstd::prelude::*;

verus! {

/// `std::sync::RwLock`. What it holds changes while it is shared, so nothing
/// is known of it.
#[verifier::external_type_specification]
#[verifier::external_body]
#[verifier::reject_recursive_types(T)]
pub struct ExRwLock<T: ?Sized>(RwLock<T>);

/// `std::sync::RwLockReadGuard`: the lock, held for reading.
#[verifier::external_type_specification]
#[verifier::external_body]
#[verifier::reject_recursive_types(T)]
pub struct ExRwLockReadGuard<'a, T: ?Sized>(RwLockReadGuard<'a, T>);

/// `RwLock::new`: an unlocked lock that holds the value. Nothing is claimed
/// of the lock, as its contents can be replaced at any time.
#[verifier::external_body]
fn lock_new<T>(value: T) -> (r: RwLock<T>) {
    RwLock::new(value)
}

/// `RwLock::read`: holds the lock for reading, or reports that a writer
/// panicked. Nothing is claimed of the value that is found, nor of a thread
/// that holds the lock already: `read` may then block or panic.
#[verifier::external_body]
fn lock_read<T>(lock: &RwLock<T>) -> (r: std::result::Result<RwLockReadGuard<'_, T>, ()>) {
    lock.read().map_err(|_| ())
}

/// `RwLockReadGuard::deref`: the value behind a lock that is held for
/// reading. Nothing is claimed of the value.
#[verifier::external_body]
fn guard_value<'b, T>(guard: &'b RwLockReadGuard<'_, T>) -> (r: &'b T) {
    &**guard
}

/// `RwLock::write`: replaces the value behind the lock, or reports that a
/// writer panicked. Nothing is claimed of what later readers find, nor of a
/// thread that holds the lock already: `write` may then block or panic.
#[verifier::external_body]
fn lock_write<T>(lock: &RwLock<T>, value: T) -> (r: std::result::Result<(), ()>) {
    match lock.write() {
        Ok(mut guard) => {
            *guard = value;
            Ok(())
        },
        Err(_) => Err(()),
    }
}

/// `Arc::ptr_eq`: whether two owners point to the same allocation. If they do,
/// they own the same value; nothing is claimed of owners of different ones.
#[verifier::external_body]
fn same_allocation<T>(a: &Arc<T>, b: &Arc<T>) -> (r: bool)
    ensures
        r ==> *a == *b,
{
    Arc::ptr_eq(a, b)
}

/// The error about a lock whose writer panicked.
pub open spec fn is_poisoned(e: Error) -> bool {
    e matches Error::Msg(m) && m@ == "storage lock poisoned"@
}

fn poisoned() -> (r: Error)
    ensures
        is_poisoned(r),
{
    Error::Msg("storage lock poisoned".to_owned())
}

/// A value that several owners read and replace.
#[verifier::reject_recursive_types(T)]
pub struct Shared<T> {
    lock: Arc<RwLock<T>>,
}

impl<T> Shared<T> {
    /// The lock was made with this value.
    pub closed spec fn starts_with(self, value: T) -> bool {
        call_ensures(lock_new::<T>, (value,), *self.lock)
    }

    /// A reader of the lock may find this value.
    pub closed spec fn can_hold(self, value: T) -> bool {
        exists|guard: RwLockReadGuard<'static, T>| self.gives(guard, value)
    }

    /// Reading the lock may give this guard, and the guard this value.
    pub closed spec fn gives(self, guard: RwLockReadGuard<'static, T>, value: T) -> bool {
        &&& call_ensures(lock_read::<T>, (&*self.lock,), Ok(guard))
        &&& call_ensures(guard_value::<T>, (&guard,), &value)
    }

    /// The lock takes this value in place of its own.
    pub closed spec fn takes(self, value: T) -> bool {
        call_ensures(lock_write::<T>, (&*self.lock, value), Ok(()))
    }

    /// A reader of the lock may be refused.
    pub closed spec fn can_refuse(self) -> bool {
        call_ensures(lock_read::<T>, (&*self.lock,), Err(()))
    }

    /// The lock may refuse this value.
    pub closed spec fn can_refuse_value(self, value: T) -> bool {
        call_ensures(lock_write::<T>, (&*self.lock, value), Err(()))
    }

    /// A lock around a value.
    pub fn new(value: T) -> (r: Self)
        ensures
            r.starts_with(value),
    {
        Shared { lock: Arc::new(lock_new(value)) }
    }

    /// A further owner of the same value.
    pub fn share(&self) -> (r: Self)
        ensures
            r == *self,
    {
        Shared { lock: Arc::clone(&self.lock) }
    }

    /// Whether this is found to be another owner of the same value.
    pub fn shares_with(&self, other: &Self) -> (r: bool)
        ensures
            r ==> *self == *other,
    {
        same_allocation(&self.lock, &other.lock)
    }

    /// Holds the value for reading. It is an error if a writer panicked.
    pub fn read(&self) -> (r: Result<RwLockReadGuard<'_, T>>)
        ensures
            match r {
                Ok(guard) => self.read_by(guard),
                Err(e) => is_poisoned(e) && self.can_refuse(),
            },
    {
        match lock_read(&self.lock) {
            Ok(guard) => Ok(guard),
            Err(u) => {
                assert(u == ());
                Err(poisoned())
            },
        }
    }

    /// The guard holds this lock for reading.
    pub closed spec fn read_by(self, guard: RwLockReadGuard<'_, T>) -> bool {
        call_ensures(lock_read::<T>, (&*self.lock,), Ok(guard))
    }

    /// The value behind a guard of this lock.
    pub fn value<'b>(&self, guard: &'b RwLockReadGuard<'_, T>) -> (r: &'b T)
        requires
            self.read_by(*guard),
        ensures
            self.can_hold(*r),
    {
        let value = guard_value(guard);
        assert(self.gives(*guard, *value));
        value
    }

    /// Replaces the value for all owners. It is an error if a writer
    /// panicked.
    pub fn replace(&self, value: T) -> (r: Result<()>)
        ensures
            match r {
                Ok(()) => self.takes(value),
                Err(e) => is_poisoned(e) && self.can_refuse_value(value),
            },
    {
        let done = lock_write(&self.lock, value);
        assert(call_ensures(lock_write::<T>, (&*self.lock, value), done));
        match done {
            Ok(u) => {
                assert(u == ());
                Ok(u)
            },
            Err(u) => {
                assert(u == ());
                Err(poisoned())
            },
        }
    }
}

} // verus!
