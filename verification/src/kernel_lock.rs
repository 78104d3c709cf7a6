//! The kernel-half lock: a reentrant, per-CPU lock over the shared upper
//! half of the address space. The atomic spinning of a running kernel is
//! the concurrency layer around this core; here the lock's state machine is
//! modelled directly, and an acquisition can be taken only when the lock is
//! free or already held by the acquiring CPU — the case in which the real
//! spin loop terminates.

use vstd::prelude::*;

use crate::mapper::Mapper;

verus! {

/// The owner value meaning "no CPU holds the lock".
pub const NO_PROCESSOR: u64 = 0xFFFF_FFFF_FFFF_FFFF;

/// The state of the kernel-half lock: the owning CPU, if any, and how many
/// nested acquisitions it holds.
#[derive(Clone, Copy, Debug, PartialEq, Eq, Structural)]
pub struct KernelLock {
    /// The CPU id of the owner, or `NO_PROCESSOR`.
    pub owner: u64,
    /// Nested acquisitions held by the owner.
    pub count: u64,
}

impl KernelLock {
    /// A lock nobody holds.
    pub fn new() -> (r: Self)
        ensures
            r.owner == NO_PROCESSOR,
            r.count == 0,
    {
        KernelLock { owner: NO_PROCESSOR, count: 0 }
    }
}

/// A guard over the kernel half: the mapper it wraps, and whether this
/// acquisition is read-only because an outer acquisition on the same CPU
/// already holds the unique right to mutate.
#[derive(Debug)]
pub struct KernelMapper {
    /// The mapper the guard wraps.
    pub mapper: Mapper,
    /// Whether this acquisition is reentrant and so read-only.
    pub ro: bool,
}

impl KernelMapper {
    /// Whether this guard must not mutate.
    pub open spec fn is_ro(self) -> bool {
        self.ro
    }

    /// The wrapped mapper.
    pub open spec fn spec_mapper(self) -> Mapper {
        self.mapper
    }

    /// Acquire the lock for `current_processor`: take ownership if the
    /// lock is free, re-enter if this CPU already owns it, and bump the
    /// nesting count. Returns whether the acquisition is reentrant — the
    /// caller was already inside. (A lock held by another CPU would spin
    /// until released; that state is excluded here.)
    pub fn lock_inner(lock: &mut KernelLock, current_processor: u64) -> (r: bool)
        requires
            old(lock).owner == NO_PROCESSOR || old(lock).owner == current_processor,
            old(lock).count < u64::MAX,
            current_processor != NO_PROCESSOR,
        ensures
            final(lock).owner == current_processor,
            final(lock).count == old(lock).count + 1,
            r == (old(lock).count > 0),
    {
        if lock.owner == NO_PROCESSOR {
            lock.owner = current_processor;
        }
        let prev_count = lock.count;
        lock.count = lock.count + 1;
        prev_count > 0
    }

    /// Acquire the lock and wrap the given mapper: the caller supplies the
    /// mapper whose kernel half the guard protects.
    pub fn lock_for_manual_mapper(
        lock: &mut KernelLock,
        current_processor: u64,
        mapper: Mapper,
    ) -> (r: Self)
        requires
            old(lock).owner == NO_PROCESSOR || old(lock).owner == current_processor,
            old(lock).count < u64::MAX,
            current_processor != NO_PROCESSOR,
        ensures
            final(lock).owner == current_processor,
            final(lock).count == old(lock).count + 1,
            r.is_ro() == (old(lock).count > 0),
            r.spec_mapper() == mapper,
    {
        let ro = Self::lock_inner(lock, current_processor);
        Self { mapper, ro }
    }

    /// Acquire the lock with the current kernel mapper.
    pub fn lock(lock: &mut KernelLock, current_processor: u64, mapper: Mapper) -> (r: Self)
        requires
            old(lock).owner == NO_PROCESSOR || old(lock).owner == current_processor,
            old(lock).count < u64::MAX,
            current_processor != NO_PROCESSOR,
        ensures
            final(lock).owner == current_processor,
            final(lock).count == old(lock).count + 1,
            r.is_ro() == (old(lock).count > 0),
            r.spec_mapper() == mapper,
    {
        Self::lock_for_manual_mapper(lock, current_processor, mapper)
    }

    /// The wrapped mapper, for mutation: `None` for a reentrant, read-only
    /// acquisition, whose outer holder keeps the unique mutator right.
    pub fn get_mut(&mut self) -> (r: Option<&mut Mapper>)
        ensures
            old(self).is_ro() <==> r is None,
    {
        if self.ro {
            None
        } else {
            Some(&mut self.mapper)
        }
    }

    /// Release one acquisition: drop the nesting count, and free the lock
    /// when the last one goes.
    pub fn unlock(self, lock: &mut KernelLock) -> (r: Mapper)
        requires
            old(lock).count > 0,
        ensures
            final(lock).count == old(lock).count - 1,
            old(lock).count == 1 ==> final(lock).owner == NO_PROCESSOR,
            old(lock).count > 1 ==> final(lock).owner == old(lock).owner,
            r == self.spec_mapper(),
    {
        lock.count = lock.count - 1;
        if lock.count == 0 {
            lock.owner = NO_PROCESSOR;
        }
        self.mapper
    }
}

} // verus!
