//! The shared, thread-safe reservation of slots.
//!
//! The flags are scanned from the first slot on, which is simpler to get
//! right under concurrent use than a free list updated by separate loads
//! and stores.
use std::sync::atomic::{AtomicBool, AtomicUsize, Ordering};
use std::sync::Arc;
use vstd::prelude::*;

use crate::error::ArenaFull;
use crate::Index;

verus! {

/// The reservation state of one slot, shared between threads.
#[derive(Debug)]
struct ControllerSlot {
    free: AtomicBool,
    generation: AtomicUsize,
}

/// The state that all [`Controller`]s of one arena share: one flag per
/// slot that says whether it can be reserved, and the slot's generation.
///
/// A slot is claimed by swapping its flag from free to taken in one
/// atomic step, so no two callers, on any threads, can claim the same
/// slot before it is freed again.
#[derive(Debug)]
struct ControllerInner {
    slots: Vec<ControllerSlot>,
}

impl ControllerInner {
    fn new(capacity: usize) -> (r: Self)
        ensures
            r.slots@.len() == capacity,
    {
        let mut slots: Vec<ControllerSlot> = Vec::with_capacity(capacity);
        let mut i: usize = 0;
        while i < capacity
            invariant
                i <= capacity,
                slots@.len() == i,
            decreases capacity - i,
        {
            slots.push(ControllerSlot { free: AtomicBool::new(true), generation: AtomicUsize::new(0) });
            i = i + 1;
        }
        ControllerInner { slots }
    }

    /// Claims the first slot whose flag still reads free, at its current
    /// generation.
    ///
    /// The flags are shared atomic state that other handles may change at
    /// any moment, so which slot is claimed, and whether any is, is not
    /// known here.
    fn try_reserve(&self) -> (r: Result<Index, ArenaFull>)
        ensures
            r is Ok ==> r->Ok_0.spec_slot() < self.slots@.len(),
    {
        let mut i: usize = 0;
        while i < self.slots.len()
            invariant
                i <= self.slots@.len(),
            decreases self.slots@.len() - i,
        {
            let slot = &self.slots[i];
            if slot.free.compare_exchange(true, false, Ordering::SeqCst, Ordering::SeqCst).is_ok() {
                return Ok(Index::new(i, slot.generation.load(Ordering::SeqCst)));
            }
            i = i + 1;
        }
        Err(ArenaFull)
    }

    /// Moves slot `index` to its next generation and marks it free.
    ///
    /// The generation moves first, so whoever claims the slot next sees
    /// the new one.
    fn free(&self, index: usize)
        requires
            index < self.slots@.len(),
    {
        let slot = &self.slots[index];
        slot.generation.fetch_add(1, Ordering::SeqCst);
        slot.free.store(true, Ordering::SeqCst);
    }
}

/// Manages [`Index`] reservations for an [`Arena`](super::Arena).
///
/// Clones share one reservation state, so a reservation made through one
/// handle is seen by all of them, on any thread.
#[derive(Debug)]
pub struct Controller(Arc<ControllerInner>);

impl Clone for Controller {
    /// Another handle on the same shared reservation state.
    fn clone(&self) -> (r: Self)
        ensures
            r.capacity() == self.capacity(),
    {
        Controller(self.0.clone())
    }
}

impl Controller {
    /// The number of slots this controller hands out.
    pub closed spec fn capacity(&self) -> nat {
        self.0.slots@.len()
    }

    pub(crate) fn new(capacity: usize) -> (r: Self)
        ensures
            r.capacity() == capacity,
    {
        Controller(Arc::new(ControllerInner::new(capacity)))
    }

    /// Tries to reserve an index for the [`Arena`](super::Arena).
    ///
    /// On success the index names one of this controller's slots. Whether
    /// a slot is left depends on what every handle of the shared state has
    /// reserved and freed, which is not known here.
    pub fn try_reserve(&self) -> (r: Result<Index, ArenaFull>)
        ensures
            r is Ok ==> r->Ok_0.spec_slot() < self.capacity(),
    {
        self.0.try_reserve()
    }

    pub(crate) fn free(&self, index: usize)
        requires
            index < self.capacity(),
    {
        self.0.free(index);
    }
}

} // verus!
