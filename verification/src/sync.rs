//! Locks for kernel threads on one core.  A spin lock keeps interrupts off
//! while held and gives back the interrupt flags saved when it was taken;
//! a mutex records its owner, may be re-taken by it, and makes other
//! threads wait (the caller yields and tries again).

use vstd::prelude::*;

verus! {

pub struct Spinlock {
    pub locked: u32,
    pub saved_flags: u32,
}

impl Spinlock {
    pub fn new() -> (s: Spinlock)
        ensures
            s.locked == 0 && s.saved_flags == 0,
    {
        Spinlock { locked: 0, saved_flags: 0 }
    }

    /// Take the lock; `flags` are the interrupt flags just before
    /// interrupts were turned off.
    pub fn lock(&mut self, flags: u32)
        ensures
            final(self).locked == 1,
            final(self).saved_flags == flags,
    {
        self.saved_flags = flags;
        self.locked = 1;
    }

    /// Release the lock; returns the flags to restore.
    pub fn unlock(&mut self) -> (flags: u32)
        ensures
            final(self).locked == 0,
            final(self).saved_flags == old(self).saved_flags,
            flags == old(self).saved_flags,
    {
        self.locked = 0;
        self.saved_flags
    }
}

pub struct Mutex {
    pub locked: u32,
    pub owner: i32,
}

impl Mutex {
    pub fn new() -> (m: Mutex)
        ensures
            m.locked == 0 && m.owner == -1,
    {
        Mutex { locked: 0, owner: -1 }
    }

    /// Try to take the mutex for thread `current`: it succeeds when the
    /// mutex is free or already held by `current`.
    pub fn try_lock(&mut self, current: i32) -> (r: bool)
        ensures
            r == (old(self).locked == 0 || old(self).owner == current),
            r ==> final(self).locked == 1 && final(self).owner == current,
            !r ==> *final(self) == *old(self),
    {
        if self.locked == 0 || self.owner == current {
            self.locked = 1;
            self.owner = current;
            true
        } else {
            false
        }
    }

    pub fn unlock(&mut self)
        ensures
            final(self).locked == 0 && final(self).owner == -1,
    {
        self.owner = -1;
        self.locked = 0;
    }
}

/// Mutual exclusion: while one thread holds the mutex, another thread's
/// attempt fails and leaves it held by the first.
pub proof fn lemma_mutex_excludes(m: Mutex, a: i32, b: i32)
    requires
        m.locked == 1,
        m.owner == a,
        a != b,
    ensures
        !(m.locked == 0 || m.owner == b),
{
}

} // verus!
