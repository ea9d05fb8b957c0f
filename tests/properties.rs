use atomic_arena::error::{ArenaFull, IndexNotReserved, KeyNotReserved};
use atomic_arena::{Arena, Index};

fn items_of(arena: &Arena<i32>) -> Vec<(Index, i32)> {
    let mut out = Vec::new();
    let mut iter = arena.iter();
    while let Some((index, value)) = iter.next() {
        out.push((index, *value));
    }
    out
}

fn values_of(arena: &Arena<i32>) -> Vec<i32> {
    items_of(arena).into_iter().map(|(_, v)| v).collect()
}

#[test]
fn capacity_stays_through_inserts_removals_and_filters() {
    let mut arena = Arena::new(4);
    assert_eq!(arena.capacity(), 4);
    let a = arena.insert(10).unwrap();
    let b = arena.insert(11).unwrap();
    arena.insert(12).unwrap();
    arena.insert(13).unwrap();
    assert_eq!(arena.insert(14), Err(ArenaFull));
    assert_eq!(arena.capacity(), 4);
    arena.remove(a);
    arena.remove(b);
    assert_eq!(arena.capacity(), 4);
    arena.retain(|v| *v > 12);
    assert_eq!(arena.capacity(), 4);
    let mut drain = arena.drain_filter(|_| true);
    while drain.next().is_some() {}
    assert_eq!(arena.capacity(), 4);
    assert_eq!(arena.len(), 0);
}

#[test]
fn reservation_fails_after_capacity_in_any_order() {
    let arena = Arena::<u8>::new(5);
    let first = arena.controller();
    let second = arena.controller();
    for k in 0..5 {
        let controller = if k % 2 == 0 { &first } else { &second };
        assert!(controller.try_reserve().is_ok());
    }
    assert_eq!(first.try_reserve(), Err(ArenaFull));
    assert_eq!(second.try_reserve(), Err(ArenaFull));
}

#[test]
fn reserved_indices_are_distinct() {
    let arena = Arena::<u8>::new(4);
    let controller = arena.controller();
    let mut slots: Vec<usize> = (0..4).map(|_| controller.try_reserve().unwrap().slot()).collect();
    slots.sort();
    assert_eq!(slots, vec![0, 1, 2, 3]);
}

#[test]
fn stale_index_stays_absent_after_slot_reuse() {
    let mut arena = Arena::new(1);
    let old = arena.insert(7).unwrap();
    assert_eq!(arena.remove(old), Some(7));
    let new = arena.insert(8).unwrap();
    assert_eq!(new.slot(), old.slot());
    assert_eq!(new.generation(), old.generation() + 1);
    assert_eq!(arena.get(old), None);
    assert_eq!(arena.get_mut(old), None);
    assert_eq!(arena.remove(old), None);
    assert_eq!(arena.get(new), Some(&8));
}

#[test]
fn newest_first_for_many_inserts() {
    let mut arena = Arena::new(8);
    for v in 0..8 {
        arena.insert(v).unwrap();
    }
    assert_eq!(values_of(&arena), vec![7, 6, 5, 4, 3, 2, 1, 0]);
}

#[test]
fn removing_a_middle_item_keeps_the_order() {
    let mut arena = Arena::new(5);
    let mut indices = Vec::new();
    for v in 1..=5 {
        indices.push(arena.insert(v).unwrap());
    }
    assert_eq!(arena.remove(indices[2]), Some(3));
    assert_eq!(values_of(&arena), vec![5, 4, 2, 1]);
    assert_eq!(arena.remove(indices[0]), Some(1));
    assert_eq!(values_of(&arena), vec![5, 4, 2]);
    assert_eq!(arena.remove(indices[4]), Some(5));
    assert_eq!(values_of(&arena), vec![4, 2]);
}

#[test]
fn insert_get_remove_round_trip() {
    let mut arena = Arena::new(2);
    let index = arena.insert(42).unwrap();
    assert_eq!(arena.get(index), Some(&42));
    assert_eq!(arena.remove(index), Some(42));
    assert_eq!(arena.get(index), None);
}

#[test]
fn retain_and_drain_filter_agree() {
    let mut kept = Arena::new(7);
    let mut drained = Arena::new(7);
    for v in [4, 9, 2, 7, 1, 8, 3] {
        kept.insert(v).unwrap();
        drained.insert(v).unwrap();
    }
    kept.retain(|v| *v > 3);
    let mut out = Vec::new();
    let mut drain = drained.drain_filter(|v| !(*v > 3));
    while let Some((_, v)) = drain.next() {
        out.push(v);
    }
    assert_eq!(out, vec![3, 1, 2]);
    assert_eq!(items_of(&kept), items_of(&drained));
    assert_eq!(values_of(&kept), vec![8, 7, 9, 4]);
}

#[test]
fn scenario_reuse_after_removal() {
    let mut arena = Arena::new(3);
    let i1 = arena.insert(1).unwrap();
    let i2 = arena.insert(2).unwrap();
    let i3 = arena.insert(3).unwrap();
    assert_eq!((i1.slot(), i1.generation()), (0, 0));
    assert_eq!((i2.slot(), i2.generation()), (1, 0));
    assert_eq!((i3.slot(), i3.generation()), (2, 0));
    assert_eq!(values_of(&arena), vec![3, 2, 1]);
    assert_eq!(arena.remove(i2), Some(2));
    assert_eq!(values_of(&arena), vec![3, 1]);
    let reserved = arena.controller().try_reserve().unwrap();
    assert_eq!((reserved.slot(), reserved.generation()), (1, 1));
    assert!(arena.insert_with_index(reserved, 4).is_ok());
    assert_eq!(values_of(&arena), vec![4, 3, 1]);
}

#[test]
fn scenario_two_controllers_one_slot() {
    let arena = Arena::<u8>::new(1);
    let a = arena.controller();
    let b = arena.controller();
    assert!(a.try_reserve().is_ok());
    assert_eq!(b.try_reserve(), Err(ArenaFull));
}

#[test]
fn reserved_but_unused_index_is_not_released_by_remove() {
    let mut arena = Arena::<u8>::new(1);
    let index = arena.controller().try_reserve().unwrap();
    assert_eq!(arena.remove(index), None);
    assert_eq!(arena.controller().try_reserve(), Err(ArenaFull));
    assert_eq!(arena.insert(5), Err(ArenaFull));
    assert!(arena.insert_with_index(index, 5).is_ok());
    assert_eq!(arena.get(index), Some(&5));
}

#[test]
fn insert_with_stale_or_foreign_index_is_refused() {
    let mut arena = Arena::new(2);
    let index = arena.insert(1).unwrap();
    assert_eq!(arena.remove(index), Some(1));
    // the slot is free again, but at a newer generation
    assert_eq!(arena.insert_with_index(index, 2), Err(IndexNotReserved));
    assert_eq!(arena.len(), 0);
    // an index for a slot this arena does not have
    let big = Arena::<i32>::new(10);
    let controller = big.controller();
    let mut far = controller.try_reserve().unwrap();
    while far.slot() < 5 {
        far = controller.try_reserve().unwrap();
    }
    assert_eq!(arena.insert_with_index(far, 3), Err(KeyNotReserved));
    assert_eq!(arena.get(far), None);
    assert_eq!(arena.remove(far), None);
    assert_eq!(arena.len(), 0);
}

#[test]
fn iter_mut_changes_are_kept() {
    let mut arena = Arena::new(3);
    let a = arena.insert(1).unwrap();
    let b = arena.insert(2).unwrap();
    let mut iter = arena.iter_mut();
    while let Some((_, v)) = iter.next() {
        *v *= 10;
    }
    assert_eq!(arena.get(a), Some(&10));
    assert_eq!(arena.get(b), Some(&20));
    if let Some(v) = arena.get_mut(a) {
        *v = 99;
    }
    assert_eq!(values_of(&arena), vec![20, 99]);
}

#[test]
fn empty_arena_behaviour() {
    let mut arena = Arena::<i32>::new(0);
    assert_eq!(arena.capacity(), 0);
    assert_eq!(arena.len(), 0);
    assert_eq!(arena.insert(1), Err(ArenaFull));
    assert_eq!(arena.iter().next(), None);
    let mut drain = arena.drain_filter(|_| true);
    assert_eq!(drain.next(), None);
}

#[test]
fn drain_filter_stopped_early_removes_only_what_it_yielded() {
    let mut arena = Arena::new(4);
    for v in 1..=4 {
        arena.insert(v).unwrap();
    }
    let mut drain = arena.drain_filter(|_| true);
    assert_eq!(drain.next().map(|(_, v)| v), Some(4));
    assert_eq!(arena.len(), 3);
    assert_eq!(values_of(&arena), vec![3, 2, 1]);
}

#[test]
fn error_descriptions() {
    assert_eq!(ArenaFull.description(), "Cannot reserve an index because the arena is full");
    assert_eq!(
        KeyNotReserved.description(),
        "Cannot insert with this index because it is not reserved"
    );
}
