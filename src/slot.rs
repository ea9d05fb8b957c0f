//! One storage cell of an [`Arena`](crate::Arena).
use vstd::prelude::*;

use crate::model::next_generation;

verus! {

/// What a slot holds: nothing, or an item together with its neighbours
/// in the list of occupied slots (newest first).
#[derive(Debug)]
pub(crate) enum ArenaSlotState<T> {
    Free,
    Occupied {
        data: T,
        previous_occupied_slot_index: Option<usize>,
        next_occupied_slot_index: Option<usize>,
    },
}

/// A slot: its state and its generation, which grows by one each time
/// the slot is emptied.
#[derive(Debug)]
pub(crate) struct ArenaSlot<T> {
    pub(crate) state: ArenaSlotState<T>,
    pub(crate) generation: usize,
}

impl<T> ArenaSlotState<T> {
    /// The item held, if any.
    pub(crate) open spec fn value(self) -> Option<T> {
        match self {
            ArenaSlotState::Free => None,
            ArenaSlotState::Occupied { data, .. } => Some(data),
        }
    }

    /// The newer neighbour in the occupied list; `None` for a free slot.
    pub(crate) open spec fn previous(self) -> Option<usize> {
        match self {
            ArenaSlotState::Free => None,
            ArenaSlotState::Occupied { previous_occupied_slot_index, .. } => previous_occupied_slot_index,
        }
    }

    /// The older neighbour in the occupied list; `None` for a free slot.
    pub(crate) open spec fn next(self) -> Option<usize> {
        match self {
            ArenaSlotState::Free => None,
            ArenaSlotState::Occupied { next_occupied_slot_index, .. } => next_occupied_slot_index,
        }
    }
}

impl<T> ArenaSlot<T> {
    pub(crate) fn new() -> (r: Self)
        ensures
            r.state is Free,
            r.generation == 0,
    {
        ArenaSlot { state: ArenaSlotState::Free, generation: 0 }
    }

    pub(crate) fn is_free(&self) -> (r: bool)
        ensures
            r == self.state is Free,
    {
        if let ArenaSlotState::Free = &self.state {
            true
        } else {
            false
        }
    }

    pub(crate) fn previous_occupied_slot_index(&self) -> (r: Option<usize>)
        ensures
            r == self.state.previous(),
    {
        if let ArenaSlotState::Occupied { previous_occupied_slot_index, .. } = &self.state {
            *previous_occupied_slot_index
        } else {
            None
        }
    }

    pub(crate) fn next_occupied_slot_index(&self) -> (r: Option<usize>)
        ensures
            r == self.state.next(),
    {
        if let ArenaSlotState::Occupied { next_occupied_slot_index, .. } = &self.state {
            *next_occupied_slot_index
        } else {
            None
        }
    }

    pub(crate) fn set_previous_occupied_slot_index(&mut self, index: Option<usize>)
        requires
            old(self).state is Occupied,
        ensures
            final(self).generation == old(self).generation,
            final(self).state.value() == old(self).state.value(),
            final(self).state.previous() == index,
            final(self).state.next() == old(self).state.next(),
            final(self).state is Occupied,
    {
        if let ArenaSlotState::Occupied { previous_occupied_slot_index, .. } = &mut self.state {
            *previous_occupied_slot_index = index;
        }
    }

    pub(crate) fn set_next_occupied_slot_index(&mut self, index: Option<usize>)
        requires
            old(self).state is Occupied,
        ensures
            final(self).generation == old(self).generation,
            final(self).state.value() == old(self).state.value(),
            final(self).state.previous() == old(self).state.previous(),
            final(self).state.next() == index,
            final(self).state is Occupied,
    {
        if let ArenaSlotState::Occupied { next_occupied_slot_index, .. } = &mut self.state {
            *next_occupied_slot_index = index;
        }
    }

    /// Empties an occupied slot and moves it to its next generation,
    /// handing back the item and its former neighbours. A free slot is
    /// left as it is.
    pub(crate) fn take(&mut self) -> (r: Option<(T, Option<usize>, Option<usize>)>)
        ensures
            match old(self).state {
                ArenaSlotState::Free => r is None && *final(self) == *old(self),
                ArenaSlotState::Occupied {
                    data,
                    previous_occupied_slot_index,
                    next_occupied_slot_index,
                } => {
                    &&& r == Some((data, previous_occupied_slot_index, next_occupied_slot_index))
                    &&& final(self).state is Free
                    &&& final(self).generation == next_generation(old(self).generation)
                },
            },
    {
        let mut state = ArenaSlotState::Free;
        std::mem::swap(&mut self.state, &mut state);
        match state {
            ArenaSlotState::Free => None,
            ArenaSlotState::Occupied {
                data,
                previous_occupied_slot_index,
                next_occupied_slot_index,
            } => {
                self.generation = self.generation.wrapping_add(1);
                Some((data, previous_occupied_slot_index, next_occupied_slot_index))
            },
        }
    }
}

} // verus!
