//! A generational [`Arena`] whose [`Index`]es can be reserved ahead of
//! time through a [`Controller`]. Controllers are backed by atomics, so
//! they can be cloned and used across threads and still share one state.
//!
//! This is useful to insert an item into an [`Arena`] on one thread while
//! another thread holds a valid [`Index`] for it right away.
use vstd::prelude::*;

mod controller;
pub mod error;
pub mod laws;
pub mod model;
mod slot;

pub use controller::Controller;

use error::{ArenaFull, KeyNotReserved};
use laws::lemma_removal_keeps_order;
use model::{
    kept_by, lemma_entries_after_replace, lemma_filter_keeps_all, lemma_filter_out_one,
    lemma_len_at_most_capacity, lemma_order_split, lemma_without_one_more, next_generation,
    ArenaModel,
};
use slot::{ArenaSlot, ArenaSlotState};

verus! {

/// A unique identifier for an item in an [`Arena`]: a slot position and
/// the generation of that slot at the time the index was handed out.
#[derive(Debug, Clone, Copy, PartialEq, Eq, Hash, Structural)]
pub struct Index {
    index: usize,
    generation: usize,
}

impl Index {
    /// The slot position this index names.
    pub closed spec fn spec_slot(self) -> usize {
        self.index
    }

    /// The generation of the slot this index was handed out for.
    pub closed spec fn spec_generation(self) -> usize {
        self.generation
    }

    /// The index of slot `slot` at generation `generation`.
    pub closed spec fn spec_new(slot: usize, generation: usize) -> Index {
        Index { index: slot, generation }
    }

    pub(crate) fn new(index: usize, generation: usize) -> (r: Self)
        ensures
            r == Index::spec_new(index, generation),
            r.spec_slot() == index,
            r.spec_generation() == generation,
    {
        Index { index, generation }
    }

    /// The slot position this index names.
    pub fn slot(&self) -> (r: usize)
        ensures
            r == self.spec_slot(),
    {
        self.index
    }

    /// The generation of the slot this index was handed out for.
    pub fn generation(&self) -> (r: usize)
        ensures
            r == self.spec_generation(),
    {
        self.generation
    }
}

/// A container of items that can be accessed via an [`Index`].
///
/// The occupied slots form a doubly linked list, most recently inserted
/// first, whose links are slot positions stored in the slots themselves.
pub struct Arena<T> {
    controller: Controller,
    slots: Vec<ArenaSlot<T>>,
    first_occupied_slot_index: Option<usize>,
    /// The occupied list as a sequence of positions, newest first.
    order: Ghost<Seq<usize>>,
}

impl<T> View for Arena<T> {
    type V = ArenaModel<T>;

    closed spec fn view(&self) -> ArenaModel<T> {
        ArenaModel {
            generations: self.slots@.map_values(|s: ArenaSlot<T>| s.generation),
            values: self.slots@.map_values(|s: ArenaSlot<T>| s.state.value()),
            order: self.order@,
        }
    }
}

impl<T> Arena<T> {
    /// The slot at position `k` of the order links to its neighbours in
    /// the order.
    pub closed spec fn linked_at(&self, k: int) -> bool {
        let order = self.order@;
        &&& self.slots@[order[k] as int].state.previous() == if k == 0 {
            None
        } else {
            Some(order[k - 1])
        }
        &&& self.slots@[order[k] as int].state.next() == if k + 1 == order.len() {
            None
        } else {
            Some(order[k + 1])
        }
    }

    /// The links stored in the slots spell out `order`, and the head
    /// pointer names its first position.
    pub closed spec fn wf(&self) -> bool {
        let order = self.order@;
        &&& self@.wf()
        &&& self.slots@.len() == self.controller.capacity()
        &&& forall|k: int| 0 <= k < order.len() ==> #[trigger] self.linked_at(k)
        &&& self.first_occupied_slot_index == if order.len() == 0 {
            None
        } else {
            Some(order[0])
        }
    }

    /// Creates a new [`Arena`] with enough space for `capacity` items.
    pub fn new(capacity: usize) -> (r: Self)
        ensures
            r.wf(),
            r@ == ArenaModel::<T>::empty(capacity as nat),
    {
        let mut slots: Vec<ArenaSlot<T>> = Vec::with_capacity(capacity);
        let mut i: usize = 0;
        while i < capacity
            invariant
                i <= capacity,
                slots@.len() == i,
                forall|p: int| 0 <= p < i ==> (#[trigger] slots@[p]).state is Free && slots@[p].generation == 0,
            decreases capacity - i,
        {
            slots.push(ArenaSlot::new());
            i = i + 1;
        }
        let r = Arena {
            controller: Controller::new(capacity),
            slots,
            first_occupied_slot_index: None,
            order: Ghost(Seq::empty()),
        };
        assert(r@.generations =~= ArenaModel::<T>::empty(capacity as nat).generations);
        assert(r@.values =~= ArenaModel::<T>::empty(capacity as nat).values);
        r
    }

    /// Returns a [`Controller`] for this [`Arena`]: a handle on the same
    /// shared reservation state.
    pub fn controller(&self) -> (r: Controller)
        requires
            self.wf(),
        ensures
            r.capacity() == self@.capacity(),
    {
        self.controller.clone()
    }

    /// Returns the total capacity of this [`Arena`].
    pub fn capacity(&self) -> (r: usize)
        requires
            self.wf(),
        ensures
            r == self@.capacity(),
    {
        self.slots.len()
    }

    /// Returns the number of items currently in the [`Arena`].
    pub fn len(&self) -> (r: usize)
        requires
            self.wf(),
        ensures
            r == self@.len(),
    {
        let ghost order = self.order@;
        let capacity = self.slots.len();
        let mut count: usize = 0;
        let mut cursor = self.first_occupied_slot_index;
        while cursor.is_some()
            invariant
                self.wf(),
                order == self.order@,
                capacity == self.slots@.len(),
                count <= order.len(),
                cursor == if count == order.len() {
                    None
                } else {
                    Some(order[count as int])
                },
            decreases order.len() - count,
        {
            proof {
                lemma_order_fits(self);
                lemma_len_at_most_capacity(self@);
                assert(self.linked_at(count as int));
            }
            let index = cursor.unwrap();
            cursor = self.slots[index].next_occupied_slot_index();
            count = count + 1;
        }
        count
    }

    /// Tries to insert an item into the [`Arena`] with a previously
    /// reserved [`Index`].
    ///
    /// Succeeds exactly when the index is current and its slot free; the
    /// item then becomes the newest. On failure nothing changes.
    pub fn insert_with_index(&mut self, index: Index, data: T) -> (r: Result<(), KeyNotReserved>)
        requires
            old(self).wf(),
        ensures
            final(self).wf(),
            r is Ok <==> old(self)@.accepts(index),
            r is Ok ==> final(self)@ == old(self)@.inserted(index, data),
            r is Err ==> final(self)@ == old(self)@,
    {
        // make sure the index is reserved
        if index.index >= self.slots.len() {
            return Err(KeyNotReserved);
        }
        if !self.slots[index.index].is_free() {
            return Err(KeyNotReserved);
        }
        if self.slots[index.index].generation != index.generation {
            return Err(KeyNotReserved);
        }
        let ghost old_order = self.order@;
        let ghost p = index.index;
        let ghost old_arena = *self;
        proof {
            lemma_order_fits(self);
            assert(!old_order.contains(p)) by {
                assert(self@.values[p as int] is None);
            }
            if old_order.len() > 0 {
                assert(old_order.contains(old_order[0]));
                assert(self@.values[old_order[0] as int] is Some);
            }
        }
        // the old head now has the new item before it
        if let Some(head_index) = self.first_occupied_slot_index {
            self.slots[head_index].set_previous_occupied_slot_index(Some(index.index));
        }
        // insert the new data
        let old_head = self.first_occupied_slot_index;
        self.slots.set(
            index.index,
            ArenaSlot {
                state: ArenaSlotState::Occupied {
                    data,
                    previous_occupied_slot_index: None,
                    next_occupied_slot_index: old_head,
                },
                generation: index.generation,
            },
        );
        // the new item is the head
        self.first_occupied_slot_index = Some(index.index);
        self.order = Ghost(seq![p].add(old_order));
        proof {
            let order = self.order@;
            assert(self@.generations =~= old_arena@.generations);
            assert(self@.values =~= old_arena@.values.update(p as int, Some(data)));
            assert forall|k: int| 0 <= k < order.len() implies order[k] < self.slots@.len() by {
                if k > 0 {
                    assert(order[k] == old_order[k - 1]);
                }
            }
            assert forall|q: int|
                #![trigger self@.values[q]]
                0 <= q < self@.values.len() implies (self@.values[q] is Some
                    <==> order.contains(q as usize)) by {
                if q != p {
                    assert(self@.values[q] == old_arena@.values[q]);
                    if old_order.contains(q as usize) {
                        let k = choose|k: int| 0 <= k < old_order.len() && old_order[k] == q;
                        assert(order[k + 1] == q);
                    }
                    if order.contains(q as usize) {
                        let k = choose|k: int| 0 <= k < order.len() && order[k] == q;
                        assert(old_order[k - 1] == q);
                        assert(old_order.contains(q as usize));
                    }
                } else {
                    assert(order[0] == p);
                }
            }
            assert(order.no_duplicates()) by {
                assert forall|a: int, b: int|
                    0 <= a < order.len() && 0 <= b < order.len() && a != b implies order[a]
                    != order[b] by {
                    if a > 0 && b > 0 {
                        assert(order[a] == old_order[a - 1]);
                        assert(order[b] == old_order[b - 1]);
                    } else if a == 0 {
                        assert(order[b] == old_order[b - 1]);
                        assert(old_order.contains(order[b]));
                    } else {
                        assert(order[a] == old_order[a - 1]);
                        assert(old_order.contains(order[a]));
                    }
                }
            }
            assert forall|k: int| 0 <= k < order.len() implies #[trigger] self.linked_at(k) by {
                if k > 0 {
                    assert(old_arena.linked_at(k - 1));
                    assert(order[k] == old_order[k - 1]);
                    assert(old_order.contains(old_order[k - 1]));
                }
            }
        }
        Ok(())
    }

    /// Empties slot `index` if it is occupied: its item is handed back,
    /// the slot moves to its next generation and returns to the
    /// controller, and its neighbours in the occupied list are joined.
    fn remove_at_raw_index(&mut self, index: usize) -> (r: Option<T>)
        requires
            old(self).wf(),
            index < old(self)@.capacity(),
        ensures
            final(self).wf(),
            r == old(self)@.values[index as int],
            final(self)@ == if r is Some {
                old(self)@.without(set![index])
            } else {
                old(self)@
            },
    {
        let ghost old_arena = *self;
        let ghost order = self.order@;
        let capacity = self.slots.len();
        proof {
            lemma_order_fits(self);
        }
        let ghost was_occupied = self@.values[index as int] is Some;
        proof {
            if was_occupied {
                assert(order.contains(index));
            }
        }
        let taken = self.slots[index].take();
        match taken {
            None => {
                proof {
                    assert(self.slots@ =~= old_arena.slots@);
                    assert forall|k: int| 0 <= k < order.len() implies #[trigger] self.linked_at(k) by {
                        assert(old_arena.linked_at(k));
                    }
                }
                None
            },
            Some((data, previous, next)) => {
                let ghost k = choose|k: int| 0 <= k < order.len() && order[k] == index;
                proof {
                    assert(old_arena.linked_at(k));
                    if k > 0 {
                        assert(order.contains(order[k - 1]));
                        assert(old_arena@.values[order[k - 1] as int] is Some);
                    }
                    if k + 1 < order.len() {
                        assert(order.contains(order[k + 1]));
                        assert(old_arena@.values[order[k + 1] as int] is Some);
                    }
                }
                self.controller.free(index);
                // join the neighbours of the emptied slot
                if let Some(previous_index) = previous {
                    self.slots[previous_index].set_next_occupied_slot_index(next);
                }
                if let Some(next_index) = next {
                    self.slots[next_index].set_previous_occupied_slot_index(previous);
                }
                // the head moves on if the emptied slot was the head
                if let Some(first) = self.first_occupied_slot_index {
                    if first == index {
                        self.first_occupied_slot_index = next;
                    }
                }
                self.order = Ghost(order.remove(k));
                proof {
                    assert forall|q: int| 0 <= q < self.slots@.len() implies #[trigger] unlinked_slot(
                        old_arena,
                        self.slots@[q],
                        k,
                        q,
                    ) by {
                        if k > 0 {
                            assert(order[k - 1] != index);
                        }
                        if k + 1 < order.len() {
                            assert(order[k + 1] != index);
                        }
                        if k > 0 && k + 1 < order.len() {
                            assert(order[k + 1] != order[k - 1]);
                        }
                    }
                    if k > 0 {
                        assert(order[0] != index);
                    }
                    lemma_unlink(old_arena, *self, k);
                }
                Some(data)
            },
        }
    }

    /// If the [`Arena`] holds an item with the given [`Index`], removes it
    /// and returns `Some(item)`; otherwise returns `None` and changes
    /// nothing.
    ///
    /// An index that was reserved but never used for an insertion stays
    /// reserved: removing with it returns `None`.
    pub fn remove(&mut self, index: Index) -> (r: Option<T>)
        requires
            old(self).wf(),
        ensures
            final(self).wf(),
            r == old(self)@.get(index),
            final(self)@ == old(self)@.removed(index),
            r is Some ==> final(self)@.entries() == old(self)@.entries().remove(
                old(self)@.order.index_of(index.spec_slot()),
            ),
    {
        if index.index >= self.slots.len() {
            return None;
        }
        if self.slots[index.index].generation != index.generation {
            return None;
        }
        proof {
            if self@.get(index) is Some {
                let k = self@.order.index_of(index.spec_slot());
                assert(self@.order.contains(index.spec_slot()));
                lemma_removal_keeps_order(self@, index, k);
            }
        }
        self.remove_at_raw_index(index.index)
    }

    /// Returns a shared reference to the item with the given [`Index`],
    /// if there is one.
    pub fn get(&self, index: Index) -> (r: Option<&T>)
        requires
            self.wf(),
        ensures
            r is Some <==> self@.get(index) is Some,
            r is Some ==> *r->Some_0 == self@.get(index)->Some_0,
    {
        if index.index >= self.slots.len() {
            return None;
        }
        let slot = &self.slots[index.index];
        if slot.generation != index.generation {
            return None;
        }
        match &slot.state {
            ArenaSlotState::Free => None,
            ArenaSlotState::Occupied { data, .. } => Some(data),
        }
    }

    /// Returns a mutable reference to the item with the given [`Index`],
    /// if there is one. What is left behind the reference becomes that
    /// item; nothing else changes.
    pub fn get_mut(&mut self, index: Index) -> (r: Option<&mut T>)
        requires
            old(self).wf(),
        ensures
            r is Some <==> old(self)@.get(index) is Some,
            match r {
                Some(v) => {
                    &&& *v == old(self)@.get(index)->Some_0
                    &&& final(self).wf()
                    &&& final(self)@ == old(self)@.replaced(index, *final(v))
                },
                None => final(self).wf() && final(self)@ == old(self)@,
            },
    {
        if index.index >= self.slots.len() {
            return None;
        }
        if self.slots[index.index].generation != index.generation {
            return None;
        }
        if self.slots[index.index].is_free() {
            return None;
        }
        proof {
            lemma_value_replaced(*self, index);
        }
        let slot = &mut self.slots[index.index];
        match &mut slot.state {
            ArenaSlotState::Free => None,
            ArenaSlotState::Occupied { data, .. } => Some(data),
        }
    }

    /// Keeps only the items for which `f` returns `true`: every item for
    /// which it returns `false` is removed, as [`Arena::remove`] does. The
    /// items are visited newest first, and the kept ones keep their order.
    pub fn retain<F: Fn(&T) -> bool>(&mut self, f: F)
        requires
            old(self).wf(),
            forall|x: &T| f.requires((x,)),
        ensures
            final(self).wf(),
            exists|gone: Set<usize>|
                #![trigger old(self)@.without(gone)]
                old(self)@.verdicts(f, false, gone) && final(self)@ == old(self)@.without(gone),
    {
        let ghost start = self@;
        let ghost mut gone: Set<usize> = Set::empty();
        let ghost mut visited: int = 0;
        let mut cursor = self.first_occupied_slot_index;
        proof {
            assert(start.without(gone).generations =~= start.generations);
            assert(start.without(gone).values =~= start.values);
            lemma_filter_keeps_all(start.order, kept_by(gone));
        }
        while cursor.is_some()
            invariant
                self.wf(),
                start.wf(),
                forall|x: &T| f.requires((x,)),
                self@ == start.without(gone),
                0 <= visited <= start.order.len(),
                forall|p: usize| gone.contains(p) ==> start.order.take(visited).contains(p),
                forall|k: int|
                    #![trigger start.order[k]]
                    0 <= k < visited ==> {
                        let v = start.values[start.order[k] as int]->Some_0;
                        &&& gone.contains(start.order[k]) ==> f.ensures((&v,), false)
                        &&& !gone.contains(start.order[k]) ==> f.ensures((&v,), true)
                    },
                cursor == if visited == start.order.len() {
                    None
                } else {
                    Some(start.order[visited])
                },
            decreases start.order.len() - visited,
        {
            let index = cursor.unwrap();
            let ghost k = start.order.take(visited).filter(kept_by(gone)).len() as int;
            proof {
                lemma_order_split(start, gone, visited);
                lemma_order_fits(self);
                assert(self.order@[k] == index);
                assert(self.linked_at(k));
                assert(self.order@.contains(index));
                assert(self@.values[index as int] is Some);
                if !gone.contains(index) {
                } else {
                    let j = choose|j: int| 0 <= j < visited && start.order.take(visited)[j] == index;
                    assert(start.order[j] == start.order[visited]);
                }
                assert(!gone.contains(index));
                assert(self@.values[index as int] == start.values[index as int]);
            }
            let (keep, next) = match &self.slots[index].state {
                ArenaSlotState::Occupied { data, next_occupied_slot_index, .. } => (
                    f(data),
                    *next_occupied_slot_index,
                ),
                // the cursor always names an occupied slot
                ArenaSlotState::Free => (true, None),
            };
            proof {
                if visited + 1 < start.order.len() {
                    assert(self.order@[k + 1] == start.order[visited + 1]);
                }
            }
            proof {
                lemma_progress(start, gone, visited, index);
            }
            if !keep {
                self.remove_at_raw_index(index);
                proof {
                    lemma_without_one_more(start, gone, index);
                    gone = gone.insert(index);
                }
            }
            proof {
                visited = visited + 1;
            }
            cursor = next;
        }
        proof {
            assert forall|p: usize| gone.contains(p) implies start.order.contains(p) by {
                let j = choose|j: int| 0 <= j < visited && start.order.take(visited)[j] == p;
                assert(start.order[j] == p);
            }
            assert(start.verdicts(f, false, gone));
        }
    }

    /// Returns an iterator over shared references to the items, the most
    /// recently inserted first.
    pub fn iter(&self) -> (r: Iter<'_, T>)
        requires
            self.wf(),
        ensures
            r.wf(),
            r.remaining() == self@.entries(),
    {
        Iter::new(self)
    }

    /// Returns an iterator over mutable references to the items, the most
    /// recently inserted first.
    pub fn iter_mut(&mut self) -> (r: IterMut<'_, T>)
        requires
            old(self).wf(),
        ensures
            r.wf(),
            r.arena_view() == old(self)@,
            r.remaining() == old(self)@.entries(),
            *final(self) == *final(r.arena),
    {
        IterMut::new(self)
    }

    /// Returns an iterator that removes and yields, newest first, every
    /// item for which `filter` returns `true`, with its index. Items are
    /// removed only as the iterator reaches them.
    pub fn drain_filter<F: Fn(&T) -> bool>(&mut self, filter: F) -> (r: DrainFilter<'_, T, F>)
        requires
            old(self).wf(),
            forall|x: &T| filter.requires((x,)),
        ensures
            r.wf(),
            r.start() == old(self)@,
            r.arena_view() == old(self)@,
            r.predicate() == filter,
            r.drained() == Set::<usize>::empty(),
            r.visited() == 0,
            *final(self) == *final(r.arena),
    {
        DrainFilter::new(self, filter)
    }

    /// Tries to reserve an [`Index`] and, if that succeeds, inserts the item
    /// with it and returns the index.
    ///
    /// Whether a slot can be reserved depends on the reservation state that
    /// all controllers of this arena share. On failure nothing changes; on
    /// success the item is the newest, in a slot that was free.
    ///
    /// The arena does not prove that a slot its controller hands out is
    /// free here: [`Arena::insert_with_index`] also accepts an index that
    /// was reserved elsewhere (from another arena's controller) if its slot
    /// is free at that generation, and this arena's controller still counts
    /// such a slot as free. When `insert` reserves a slot that the arena
    /// then refuses, it returns `ArenaFull`, drops the item, and the
    /// reservation of that slot is not given back.
    pub fn insert(&mut self, data: T) -> (r: Result<Index, ArenaFull>)
        requires
            old(self).wf(),
        ensures
            final(self).wf(),
            r is Ok ==> old(self)@.accepts(r->Ok_0) && final(self)@ == old(self)@.inserted(
                r->Ok_0,
                data,
            ),
            r is Err ==> final(self)@ == old(self)@,
    {
        let index = match self.controller.try_reserve() {
            Ok(index) => index,
            Err(e) => return Err(e),
        };
        match self.insert_with_index(index, data) {
            Ok(()) => Ok(index),
            Err(_) => Err(ArenaFull),
        }
    }
}

/// Iterates over shared references to the items of an [`Arena`], the
/// most recently inserted first.
pub struct Iter<'a, T> {
    next_occupied_slot_index: Option<usize>,
    arena: &'a Arena<T>,
    /// How many items have been visited.
    position: Ghost<int>,
}

impl<'a, T> Iter<'a, T> {
    /// The cursor stands at `position` in the arena's order.
    pub closed spec fn wf(self) -> bool {
        &&& self.arena.wf()
        &&& 0 <= self.position@ <= self.arena.order@.len()
        &&& self.next_occupied_slot_index == if self.position@ == self.arena.order@.len() {
            None
        } else {
            Some(self.arena.order@[self.position@])
        }
    }

    /// The items still to be visited, with their indices, in order.
    pub closed spec fn remaining(self) -> Seq<(Index, T)> {
        self.arena@.entries().skip(self.position@)
    }

    fn new(arena: &'a Arena<T>) -> (r: Self)
        requires
            arena.wf(),
        ensures
            r.wf(),
            r.remaining() == arena@.entries(),
    {
        let r = Iter {
            next_occupied_slot_index: arena.first_occupied_slot_index,
            arena,
            position: Ghost(0),
        };
        assert(r.remaining() =~= arena@.entries());
        r
    }

    /// Yields the next item with its index, or `None` once all are visited.
    pub fn next(&mut self) -> (r: Option<(Index, &'a T)>)
        requires
            old(self).wf(),
        ensures
            final(self).wf(),
            old(self).remaining().len() == 0 ==> r is None && final(self).remaining()
                == old(self).remaining(),
            old(self).remaining().len() > 0 ==> {
                &&& r is Some
                &&& (r->Some_0.0, *r->Some_0.1) == old(self).remaining()[0]
                &&& final(self).remaining() == old(self).remaining().drop_first()
            },
    {
        let arena: &'a Arena<T> = self.arena;
        match self.next_occupied_slot_index {
            None => None,
            Some(slot_index) => {
                let ghost k = self.position@;
                proof {
                    lemma_order_fits(arena);
                    assert(arena.linked_at(k));
                    assert(arena.order@.contains(slot_index));
                    assert(arena@.values[slot_index as int] is Some);
                }
                let slot = &arena.slots[slot_index];
                let index = Index { index: slot_index, generation: slot.generation };
                self.next_occupied_slot_index = slot.next_occupied_slot_index();
                self.position = Ghost(k + 1);
                proof {
                    assert(self.remaining() =~= old(self).remaining().drop_first());
                }
                match arena.get(index) {
                    Some(data) => Some((index, data)),
                    None => None,
                }
            },
        }
    }
}

/// Iterates over mutable references to the items of an [`Arena`], the
/// most recently inserted first.
///
/// Its fields are public so that contracts can say what the borrowed
/// arena holds once the iterator is done with it.
pub struct IterMut<'a, T> {
    /// The slot of the next item to visit.
    pub next_occupied_slot_index: Option<usize>,
    /// The arena being visited.
    pub arena: &'a mut Arena<T>,
    /// How many items have been visited.
    pub position: Ghost<int>,
}

impl<'a, T> IterMut<'a, T> {
    /// The cursor stands at `position` in the arena's order.
    pub closed spec fn wf(self) -> bool {
        &&& self.arena.wf()
        &&& 0 <= self.position@ <= self.arena.order@.len()
        &&& self.next_occupied_slot_index == if self.position@ == self.arena.order@.len() {
            None
        } else {
            Some(self.arena.order@[self.position@])
        }
    }

    /// The arena as it stands now.
    pub closed spec fn arena_view(self) -> ArenaModel<T> {
        self.arena@
    }

    /// The items still to be visited, with their indices, in order.
    pub closed spec fn remaining(self) -> Seq<(Index, T)> {
        self.arena@.entries().skip(self.position@)
    }

    fn new(arena: &'a mut Arena<T>) -> (r: Self)
        requires
            old(arena).wf(),
        ensures
            r.wf(),
            r.arena_view() == old(arena)@,
            r.remaining() == old(arena)@.entries(),
            *final(arena) == *final(r.arena),
    {
        let first = arena.first_occupied_slot_index;
        let r = IterMut { next_occupied_slot_index: first, arena, position: Ghost(0) };
        assert(r.remaining() =~= r.arena_view().entries());
        r
    }

    /// Yields the next item with its index, or `None` once all are visited.
    /// What is left behind the reference becomes that item.
    pub fn next(&mut self) -> (r: Option<(Index, &mut T)>)
        requires
            old(self).wf(),
        ensures
            *final(final(self).arena) == *final(old(self).arena),
            old(self).remaining().len() == 0 ==> {
                &&& r is None
                &&& final(self).wf()
                &&& final(self).arena_view() == old(self).arena_view()
                &&& final(self).remaining() == old(self).remaining()
            },
            old(self).remaining().len() > 0 ==> match r {
                Some(item) => {
                    &&& (item.0, *item.1) == old(self).remaining()[0]
                    &&& final(self).wf()
                    &&& final(self).arena_view() == old(self).arena_view().replaced(
                        item.0,
                        *final(item.1),
                    )
                    &&& final(self).remaining() == old(self).remaining().drop_first()
                },
                None => false,
            },
    {
        match self.next_occupied_slot_index {
            None => None,
            Some(slot_index) => {
                // a cursor set from outside may name no slot
                if slot_index >= self.arena.slots.len() {
                    return None;
                }
                let ghost k = self.position@;
                proof {
                    lemma_order_fits(self.arena);
                    assert(self.arena.linked_at(k));
                    assert(self.arena.order@.contains(slot_index));
                    assert(self.arena@.values[slot_index as int] is Some);
                    lemma_entries_after_replace(self.arena@, k);
                }
                let index = Index {
                    index: slot_index,
                    generation: self.arena.slots[slot_index].generation,
                };
                self.next_occupied_slot_index = self.arena.slots[slot_index].next_occupied_slot_index();
                self.position = Ghost(k + 1);
                match self.arena.get_mut(index) {
                    Some(data) => Some((index, data)),
                    None => None,
                }
            },
        }
    }
}

/// Removes and yields the items of an [`Arena`] that a filter accepts,
/// newest first.
///
/// Its fields are public so that contracts can say what the borrowed
/// arena holds once the iterator is done with it.
pub struct DrainFilter<'a, T, F: Fn(&T) -> bool> {
    /// The arena being drained.
    pub arena: &'a mut Arena<T>,
    /// Decides which items leave.
    pub filter: F,
    /// The slot of the next item to visit.
    pub next_occupied_slot_index: Option<usize>,
    /// The arena as it was when draining began.
    pub start: Ghost<ArenaModel<T>>,
    /// The slots whose items have been drained.
    pub gone: Ghost<Set<usize>>,
    /// How many positions of the starting order have been visited.
    pub visited: Ghost<int>,
}

impl<'a, T, F: Fn(&T) -> bool> DrainFilter<'a, T, F> {
    /// The arena as it was when draining began.
    pub closed spec fn start(self) -> ArenaModel<T> {
        self.start@
    }

    /// The arena as it stands now.
    pub closed spec fn arena_view(self) -> ArenaModel<T> {
        self.arena@
    }

    /// The filter that decides which items leave.
    pub closed spec fn predicate(self) -> F {
        self.filter
    }

    /// The slots whose items have been drained so far.
    pub closed spec fn drained(self) -> Set<usize> {
        self.gone@
    }

    /// How many items of the starting order have been visited.
    pub closed spec fn visited(self) -> int {
        self.visited@
    }

    /// The arena is the starting one without the drained items; of the
    /// visited items the filter accepted exactly the drained ones, and
    /// the cursor stands on the first item not yet visited.
    pub closed spec fn wf(self) -> bool {
        let start = self.start@;
        let gone = self.gone@;
        let visited = self.visited@;
        &&& self.arena.wf()
        &&& start.wf()
        &&& forall|x: &T| self.filter.requires((x,))
        &&& self.arena@ == start.without(gone)
        &&& 0 <= visited <= start.order.len()
        &&& forall|p: usize| gone.contains(p) ==> start.order.take(visited).contains(p)
        &&& forall|k: int|
            #![trigger start.order[k]]
            0 <= k < visited ==> {
                let v = start.values[start.order[k] as int]->Some_0;
                &&& gone.contains(start.order[k]) ==> self.filter.ensures((&v,), true)
                &&& !gone.contains(start.order[k]) ==> self.filter.ensures((&v,), false)
            }
        &&& self.next_occupied_slot_index == if visited == start.order.len() {
            None
        } else {
            Some(start.order[visited])
        }
    }

    fn new(arena: &'a mut Arena<T>, filter: F) -> (r: Self)
        requires
            old(arena).wf(),
            forall|x: &T| filter.requires((x,)),
        ensures
            r.wf(),
            r.start() == old(arena)@,
            r.arena_view() == old(arena)@,
            r.predicate() == filter,
            r.drained() == Set::<usize>::empty(),
            r.visited() == 0,
            *final(arena) == *final(r.arena),
    {
        let ghost start = arena@;
        proof {
            assert(start.without(Set::empty()).generations =~= start.generations);
            assert(start.without(Set::empty()).values =~= start.values);
            lemma_filter_keeps_all(start.order, kept_by(Set::empty()));
        }
        let first = arena.first_occupied_slot_index;
        DrainFilter {
            arena,
            filter,
            next_occupied_slot_index: first,
            start: Ghost(start),
            gone: Ghost(Set::empty()),
            visited: Ghost(0),
        }
    }

    /// Removes and yields the next item that the filter accepts, with the
    /// index it had; `None` once every item has been visited.
    pub fn next(&mut self) -> (r: Option<(Index, T)>)
        requires
            old(self).wf(),
        ensures
            final(self).wf(),
            *final(final(self).arena) == *final(old(self).arena),
            final(self).start() == old(self).start(),
            final(self).predicate() == old(self).predicate(),
            final(self).arena_view() == final(self).start().without(final(self).drained()),
            forall|m: int|
                final(self).visited() <= m < final(self).start().order.len()
                    ==> !final(self).drained().contains(#[trigger] final(self).start().order[m]),
            r is None ==> {
                &&& final(self).visited() == final(self).start().order.len()
                &&& final(self).drained() == old(self).drained()
                &&& final(self).start().verdicts(final(self).predicate(), true, final(self).drained())
                &&& forall|m: int|
                    old(self).visited() <= m < old(self).start().order.len()
                        ==> old(self).predicate().ensures(
                        (&old(self).start().values[#[trigger] old(self).start().order[m] as int]->Some_0,),
                        false,
                    )
            },
            r is Some ==> {
                let j = final(self).visited() - 1;
                &&& old(self).visited() <= j < old(self).start().order.len()
                &&& r->Some_0 == old(self).start().entries()[j]
                &&& final(self).drained() == old(self).drained().insert(old(self).start().order[j])
                &&& old(self).predicate().ensures((&r->Some_0.1,), true)
                &&& forall|m: int|
                    old(self).visited() <= m < j ==> old(self).predicate().ensures(
                        (&old(self).start().values[#[trigger] old(self).start().order[m] as int]->Some_0,),
                        false,
                    )
            },
    {
        let ghost start = self.start@;
        let ghost old_visited = self.visited@;
        while self.next_occupied_slot_index.is_some()
            invariant
                self.wf(),
                *final(self.arena) == *final(old(self).arena),
                self.start@ == start,
                self.filter == old(self).filter,
                self.gone@ == old(self).gone@,
                0 <= old_visited <= self.visited@,
                old_visited == old(self).visited@,
                forall|q: usize| #[trigger]
                    self.gone@.contains(q) ==> start.order.take(old_visited).contains(q),
                start == old(self).start@,
            decreases start.order.len() - self.visited@,
        {
            let raw_index = self.next_occupied_slot_index.unwrap();
            // a cursor set from outside may name no slot
            if raw_index >= self.arena.slots.len() {
                return None;
            }
            let ghost gone = self.gone@;
            let ghost visited = self.visited@;
            let ghost k = start.order.take(visited).filter(kept_by(gone)).len() as int;
            proof {
                lemma_order_split(start, gone, visited);
                lemma_order_fits(self.arena);
                assert(self.arena.order@[k] == raw_index);
                assert(self.arena.linked_at(k));
                assert(self.arena.order@.contains(raw_index));
                assert(self.arena@.values[raw_index as int] is Some);
                if gone.contains(raw_index) {
                    let j = choose|j: int| 0 <= j < visited && start.order.take(visited)[j] == raw_index;
                    assert(start.order[j] == start.order[visited]);
                }
                assert(self.arena@.values[raw_index as int] == start.values[raw_index as int]);
                assert(self.arena@.generations[raw_index as int] == start.generations[
                    raw_index as int
                ]);
                if visited + 1 < start.order.len() {
                    assert(self.arena.order@[k + 1] == start.order[visited + 1]);
                }
            }
            let arena: &Arena<T> = self.arena;
            let (take, next) = match &arena.slots[raw_index].state {
                ArenaSlotState::Occupied { data, next_occupied_slot_index, .. } => (
                    (self.filter)(data),
                    *next_occupied_slot_index,
                ),
                // the cursor always names an occupied slot
                ArenaSlotState::Free => (false, None),
            };
            let index = Index { index: raw_index, generation: arena.slots[raw_index].generation };
            proof {
                assert(index == start.index_at(raw_index));
                assert(start.entries()[visited].0 == index);
                assert(start.entries()[visited].1 == start.values[raw_index as int]->Some_0);
            }
            self.next_occupied_slot_index = next;
            if take {
                let removed = self.arena.remove_at_raw_index(raw_index);
                proof {
                    lemma_unvisited_not_drained(start, gone, old_visited);
                    assert(self.filter.ensures(
                        (&start.values[raw_index as int]->Some_0,),
                        true,
                    ));
                    lemma_without_one_more(start, gone, raw_index);
                    self.gone = Ghost(gone.insert(raw_index));
                    lemma_progress(start, gone, visited, raw_index);
                    self.visited = Ghost(visited + 1);
                }
                return match removed {
                    Some(element) => Some((index, element)),
                    None => None,
                };
            }
            proof {
                lemma_progress(start, gone, visited, raw_index);
                self.visited = Ghost(visited + 1);
            }
        }
        proof {
            let gone = self.gone@;
            let visited = self.visited@;
            lemma_unvisited_not_drained(start, gone, old_visited);
            assert forall|p: usize| gone.contains(p) implies start.order.contains(p) by {
                let j = choose|j: int| 0 <= j < visited && start.order.take(visited)[j] == p;
                assert(start.order[j] == p);
            }
        }
        None
    }
}

/// Slots drawn from the first `v` positions of the order are none of the
/// slots at position `v` or later.
proof fn lemma_unvisited_not_drained<T>(start: ArenaModel<T>, gone: Set<usize>, v: int)
    requires
        start.wf(),
        0 <= v <= start.order.len(),
        forall|q: usize| gone.contains(q) ==> start.order.take(v).contains(q),
    ensures
        forall|m: int| v <= m < start.order.len() ==> !gone.contains(#[trigger] start.order[m]),
{
    assert forall|m: int| v <= m < start.order.len() implies !gone.contains(
        #[trigger] start.order[m],
    ) by {
        if gone.contains(start.order[m]) {
            let j = choose|j: int| 0 <= j < v && start.order.take(v)[j] == start.order[m];
            assert(start.order[j] == start.order[m]);
        }
    }
}

/// Visiting position `visited` of the order keeps every drained slot, and
/// `p` too, among the visited ones.
proof fn lemma_progress<T>(start: ArenaModel<T>, gone: Set<usize>, visited: int, p: usize)
    requires
        0 <= visited < start.order.len(),
        start.order[visited] == p,
        forall|q: usize| gone.contains(q) ==> start.order.take(visited).contains(q),
    ensures
        forall|q: usize|
            gone.insert(p).contains(q) ==> start.order.take(visited + 1).contains(q),
{
    assert forall|q: usize| gone.insert(p).contains(q) implies start.order.take(
        visited + 1,
    ).contains(q) by {
        if q == p {
            assert(start.order.take(visited + 1)[visited] == q);
        } else {
            let j = choose|j: int| 0 <= j < visited && start.order.take(visited)[j] == q;
            assert(start.order.take(visited + 1)[j] == q);
        }
    }
}

/// How removing the item at position `k` of the order changes slot `q`:
/// the slot itself becomes free at its next generation, its neighbours are
/// joined, and every other slot stays as it was.
spec fn unlinked_slot<T>(a: Arena<T>, slot: ArenaSlot<T>, k: int, q: int) -> bool {
    let o = a.order@;
    let p = o[k];
    let old_slot = a.slots@[q];
    if q == p {
        slot.state is Free && slot.generation == next_generation(old_slot.generation)
    } else if k > 0 && q == o[k - 1] {
        &&& slot.generation == old_slot.generation
        &&& slot.state.value() == old_slot.state.value()
        &&& slot.state.previous() == old_slot.state.previous()
        &&& slot.state.next() == a.slots@[p as int].state.next()
    } else if k + 1 < o.len() && q == o[k + 1] {
        &&& slot.generation == old_slot.generation
        &&& slot.state.value() == old_slot.state.value()
        &&& slot.state.previous() == a.slots@[p as int].state.previous()
        &&& slot.state.next() == old_slot.state.next()
    } else {
        slot == old_slot
    }
}

/// Removing the item at position `k` of the order, as `unlinked_slot`
/// describes it, leaves a well-formed arena: the old one without that item.
proof fn lemma_unlink<T>(a: Arena<T>, b: Arena<T>, k: int)
    requires
        a.wf(),
        0 <= k < a.order@.len(),
        b.order@ == a.order@.remove(k),
        b.controller == a.controller,
        b.slots@.len() == a.slots@.len(),
        b.slots@.len() <= usize::MAX,
        forall|q: int|
            0 <= q < b.slots@.len() ==> #[trigger] unlinked_slot(a, b.slots@[q], k, q),
        b.first_occupied_slot_index == if k == 0 {
            a.slots@[a.order@[k] as int].state.next()
        } else {
            a.first_occupied_slot_index
        },
    ensures
        b.wf(),
        b@ == a@.without(set![a.order@[k]]),
{
    let order = a.order@;
    let o = b.order@;
    let index = order[k];
    let m = a@;
    lemma_order_fits(&a);
    assert(order.contains(index));
    assert(a.linked_at(k));
    lemma_filter_out_one(order, k);
    assert forall|q: int| 0 <= q < b@.generations.len() implies b@.generations[q]
        == m.without(set![index]).generations[q] by {
        assert(unlinked_slot(a, b.slots@[q], k, q));
        if q == index {
            assert(m.leaves(set![index], q));
        } else {
            assert(q as usize != index);
            assert(!m.leaves(set![index], q));
        }
    }
    assert forall|q: int| 0 <= q < b@.values.len() implies b@.values[q]
        == m.without(set![index]).values[q] by {
        assert(unlinked_slot(a, b.slots@[q], k, q));
        if q == index {
            assert(m.leaves(set![index], q));
        } else {
            assert(q as usize != index);
            assert(!m.leaves(set![index], q));
        }
    }
    assert(b@.generations =~= m.without(set![index]).generations);
    assert(b@.values =~= m.without(set![index]).values);
    lemma_unlink_order(a, b, k);
    lemma_unlink_links(a, b, k);
}

/// The order after the removal lists exactly the occupied slots, once each.
proof fn lemma_unlink_order<T>(a: Arena<T>, b: Arena<T>, k: int)
    requires
        a.wf(),
        0 <= k < a.order@.len(),
        b.order@ == a.order@.remove(k),
        b.slots@.len() == a.slots@.len(),
        b.slots@.len() <= usize::MAX,
        forall|q: int|
            0 <= q < b.slots@.len() ==> #[trigger] unlinked_slot(a, b.slots@[q], k, q),
    ensures
        b@.wf(),
{
    let order = a.order@;
    let o = b.order@;
    let index = order[k];
    lemma_order_fits(&a);
    assert(o.no_duplicates()) by {
        assert forall|x: int, y: int| 0 <= x < o.len() && 0 <= y < o.len() && x != y implies o[x]
            != o[y] by {
            let x0 = if x < k {
                x
            } else {
                x + 1
            };
            let y0 = if y < k {
                y
            } else {
                y + 1
            };
            assert(o[x] == order[x0]);
            assert(o[y] == order[y0]);
        }
    }
    assert forall|j: int| 0 <= j < o.len() implies o[j] < b@.generations.len() by {
        if j < k {
            assert(o[j] == order[j]);
        } else {
            assert(o[j] == order[j + 1]);
        }
    }
    assert forall|q: int|
        #![trigger b@.values[q]]
        0 <= q < b@.values.len() implies (b@.values[q] is Some <==> o.contains(q as usize)) by {
        assert(unlinked_slot(a, b.slots@[q], k, q));
        if o.contains(q as usize) {
            let j = choose|j: int| 0 <= j < o.len() && o[j] == q;
            if j < k {
                assert(order[j] == q);
            } else {
                assert(order[j + 1] == q);
            }
            assert(order.contains(q as usize));
            assert(a@.values[q] is Some);
        }
        if q != index {
            assert(b@.values[q] == a@.values[q]);
            if order.contains(q as usize) {
                let j = choose|j: int| 0 <= j < order.len() && order[j] == q;
                assert(j != k);
                if j < k {
                    assert(o[j] == q);
                } else {
                    assert(o[j - 1] == q);
                }
            }
        }
    }
}

/// The links after the removal spell out the new order.
proof fn lemma_unlink_links<T>(a: Arena<T>, b: Arena<T>, k: int)
    requires
        a.wf(),
        0 <= k < a.order@.len(),
        b.order@ == a.order@.remove(k),
        b.slots@.len() == a.slots@.len(),
        forall|q: int|
            0 <= q < b.slots@.len() ==> #[trigger] unlinked_slot(a, b.slots@[q], k, q),
    ensures
        forall|j: int| 0 <= j < b.order@.len() ==> #[trigger] b.linked_at(j),
{
    let order = a.order@;
    let o = b.order@;
    let index = order[k];
    lemma_order_fits(&a);
    assert(a.linked_at(k));
    assert forall|j: int| 0 <= j < o.len() implies #[trigger] b.linked_at(j) by {
        if j < k {
            assert(a.linked_at(j));
            assert(o[j] == order[j]);
            assert(unlinked_slot(a, b.slots@[order[j] as int], k, order[j] as int));
            assert(order[j] != index);
            if j + 1 < k {
                assert(o[j + 1] == order[j + 1]);
            }
            if j > 0 {
                assert(o[j - 1] == order[j - 1]);
            }
            if k + 1 < order.len() {
                assert(order[j] != order[k + 1]);
            }
            if j < k - 1 {
                assert(order[j] != order[k - 1]);
            }
        } else {
            assert(a.linked_at(j + 1));
            assert(o[j] == order[j + 1]);
            assert(unlinked_slot(a, b.slots@[order[j + 1] as int], k, order[j + 1] as int));
            assert(order[j + 1] != index);
            if j + 1 < o.len() {
                assert(o[j + 1] == order[j + 2]);
            }
            if j > k {
                assert(o[j - 1] == order[j]);
                assert(order[j + 1] != order[k + 1]);
            }
            if k > 0 {
                assert(order[j + 1] != order[k - 1]);
            }
        }
    }
}

/// `b` is `a` with only the item in the occupied slot `p` changed.
spec fn same_but_value<T>(a: Arena<T>, b: Arena<T>, p: int) -> bool {
    &&& b.controller == a.controller
    &&& b.order@ == a.order@
    &&& b.first_occupied_slot_index == a.first_occupied_slot_index
    &&& b.slots@.len() == a.slots@.len()
    &&& forall|q: int| 0 <= q < a.slots@.len() && q != p ==> b.slots@[q] == a.slots@[q]
    &&& b.slots@[p].generation == a.slots@[p].generation
    &&& b.slots@[p].state.previous() == a.slots@[p].state.previous()
    &&& b.slots@[p].state.next() == a.slots@[p].state.next()
    &&& b.slots@[p].state is Occupied
}

/// Changing the item in an occupied slot keeps the arena well-formed and
/// changes only that item in its model.
proof fn lemma_value_replaced<T>(a: Arena<T>, i: Index)
    requires
        a.wf(),
        a@.get(i) is Some,
    ensures
        forall|b: Arena<T>|
            #![trigger b.wf()]
            #![trigger b.view()]
            same_but_value(a, b, i.spec_slot() as int) ==> b.wf() && b@ == a@.replaced(
                i,
                b.slots@[i.spec_slot() as int].state.value()->Some_0,
            ),
{
    let p = i.spec_slot() as int;
    assert forall|b: Arena<T>|
        #![trigger b.wf()]
        #![trigger b.view()]
        same_but_value(a, b, i.spec_slot() as int) implies b.wf() && b@ == a@.replaced(
        i,
        b.slots@[i.spec_slot() as int].state.value()->Some_0,
    ) by {
        assert(b@.generations =~= a@.generations);
        assert(b@.values =~= a@.values.update(p, b.slots@[p].state.value()));
        assert forall|k: int| 0 <= k < b.order@.len() implies #[trigger] b.linked_at(k) by {
            assert(a.linked_at(k));
        }
    }
}

/// Every position in the order is a slot position.
proof fn lemma_order_fits<T>(a: &Arena<T>)
    requires
        a.wf(),
    ensures
        forall|k: int| 0 <= k < a.order@.len() ==> a.order@[k] < a.slots@.len(),
{
}

} // verus!
