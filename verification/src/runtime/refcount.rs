//! How many tasks keep a bucket in use.
use vstd::prelude::*;

verus! {

/// The bucket is empty, and available to claim by a worker.
pub const EMPTY: u32 = 0xFFFF_FFFF;

/// The bucket is claimed, but no futures are inserted yet.
pub const RESERVED: u32 = 0xFFFF_FFFE;

#[derive(Debug)]
pub struct Refcount(u32);

impl View for Refcount {
    type V = u32;

    closed spec fn view(&self) -> u32 {
        self.0
    }
}

impl Refcount {
    pub fn new() -> (refcount: Self)
        ensures
            refcount@ == EMPTY,
    {
        Refcount(EMPTY)
    }

    pub fn load(&self) -> (count: u32)
        ensures
            count == self@,
    {
        self.0
    }

    /// Reserves an empty bucket.
    pub fn try_reserve(&mut self) -> (result: Result<(), ()>)
        ensures
            result is Ok <==> old(self)@ == EMPTY,
            final(self)@ == if old(self)@ == EMPTY {
                RESERVED
            } else {
                old(self)@
            },
    {
        if self.0 == EMPTY {
            self.0 = RESERVED;
            Ok(())
        } else {
            Err(())
        }
    }

    /// Takes a bucket that was reserved into use.
    pub fn claim(&mut self)
        requires
            old(self)@ == RESERVED,
        ensures
            final(self)@ == 0,
    {
        self.0 = 0;
    }

    /// Counts one more task, and tells how many there are.
    pub fn incref(&mut self) -> (count: u32)
        requires
            old(self)@ < u32::MAX,
        ensures
            final(self)@ == old(self)@ + 1,
            count == final(self)@,
    {
        self.0 = self.0 + 1;
        self.0
    }

    /// Tells how many tasks are left without one of them. If none is, the bucket is empty.
    pub fn decref(&mut self) -> (count: u32)
        ensures
            count == if old(self)@ == 0 {
                0int
            } else {
                old(self)@ - 1
            },
            final(self)@ == if count == 0 {
                EMPTY
            } else {
                old(self)@
            },
    {
        let old: u32 = self.0;
        let new: u32 = old.saturating_sub(1);
        if new == 0 {
            self.0 = EMPTY;
        }
        new
    }

    /// Counts one task less, and tells how many there were.
    pub fn fetch_sub(&mut self) -> (count: u32)
        ensures
            count == old(self)@,
            final(self)@ == if old(self)@ == 0 {
                u32::MAX as int
            } else {
                old(self)@ - 1
            },
    {
        let old: u32 = self.0;
        self.0 = old.wrapping_sub(1);
        old
    }
}

} // verus!
