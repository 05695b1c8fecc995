use vstd::prelude::*;

verus! {

/// A change of a reference count: one reference more, none, or one less.
#[derive(Clone, Copy, PartialEq, Eq, Debug, Structural)]
pub enum RefCounterUpdate {
    AddRef,
    Read,
    Release,
}

impl RefCounterUpdate {
    /// The amount that the update adds to a count.
    pub open spec fn amount(self) -> int {
        match self {
            RefCounterUpdate::AddRef => 1,
            RefCounterUpdate::Read => 0,
            RefCounterUpdate::Release => -1,
        }
    }

    /// The amount that the update adds to a count: 1, 0 or -1.
    pub fn delta(self) -> (r: isize)
        ensures
            r == self.amount(),
    {
        match self {
            RefCounterUpdate::AddRef => 1,
            RefCounterUpdate::Read => 0,
            RefCounterUpdate::Release => -1,
        }
    }
}

/// A change of a reference count, as a global block header takes it.
#[derive(Clone, Copy, PartialEq, Eq, Debug, Structural)]
pub enum RefUpdate {
    AddRef,
    Read,
    Release,
}

impl RefUpdate {
    /// The amount that the update adds to a count.
    pub open spec fn amount(self) -> int {
        match self {
            RefUpdate::AddRef => 1,
            RefUpdate::Read => 0,
            RefUpdate::Release => -1,
        }
    }

    /// The amount that the update adds to a count: 1, 0 or -1.
    pub fn delta(self) -> (r: isize)
        ensures
            r == self.amount(),
    {
        match self {
            RefUpdate::AddRef => 1,
            RefUpdate::Read => 0,
            RefUpdate::Release => -1,
        }
    }
}

/// A release undoes an added reference, and a read changes nothing.
pub proof fn law_release_undoes_add_ref(count: int)
    ensures
        count + RefCounterUpdate::AddRef.amount() + RefCounterUpdate::Release.amount() == count,
        count + RefCounterUpdate::Read.amount() == count,
        count + RefUpdate::AddRef.amount() + RefUpdate::Release.amount() == count,
        count + RefUpdate::Read.amount() == count,
{
}

/// The header of a memory block: it counts the references to the block.
pub trait BlockHeader: Sized {
    /// The current count.
    spec fn count(&self) -> int;

    /// Adds the update's amount to the count and returns the count from before.
    fn ref_counter_update(&mut self, i: RefCounterUpdate) -> (r: isize)
        requires
            isize::MIN <= old(self).count() + i.amount() <= isize::MAX,
        ensures
            r == old(self).count(),
            final(self).count() == old(self).count() + i.amount(),
    ;
}

/// A bare signed integer is a counter.
impl BlockHeader for isize {
    open spec fn count(&self) -> int {
        *self as int
    }

    fn ref_counter_update(&mut self, i: RefCounterUpdate) -> (r: isize) {
        let result = *self;
        *self = result + i.delta();
        result
    }
}

/// The header of a block of the global heap: a counter that starts at one, for the reference
/// that allocating the block gives.
pub struct GlobalHeader {
    counter: isize,
}

impl GlobalHeader {
    /// The current count.
    pub closed spec fn count(&self) -> int {
        self.counter as int
    }

    /// Adds the update's amount to the count and returns the count from before.
    pub fn ref_update(&mut self, val: RefUpdate) -> (r: isize)
        requires
            isize::MIN <= old(self).count() + val.amount() <= isize::MAX,
        ensures
            r == old(self).count(),
            final(self).count() == old(self).count() + val.amount(),
    {
        let result = self.counter;
        self.counter = result + val.delta();
        result
    }
}

impl Default for GlobalHeader {
    fn default() -> (r: Self)
        ensures
            r.count() == 1,
    {
        GlobalHeader { counter: 1 }
    }
}

} // verus!
