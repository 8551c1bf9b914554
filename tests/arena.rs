use capa_engine::free_list::FreeList;
use capa_engine::gen_arena::{GenArena, Handle};

#[test]
fn freed_handle_never_resolves_again() {
    let mut arena: GenArena<u32> = GenArena::new(1);
    let h = arena.allocate(7).unwrap();
    assert_eq!(arena.get(h), Some(&7));
    assert_eq!(arena.free(h), Some(7));
    assert_eq!(arena.get(h), None);
    // The same slot is reused under a newer generation.
    let g = arena.allocate(9).unwrap();
    assert_eq!(g.idx, h.idx);
    assert_ne!(g.gen, h.gen);
    assert_eq!(arena.get(h), None);
    assert!(!arena.is_live(h));
    assert_eq!(arena.get(g), Some(&9));
    // Freeing a dead handle does nothing.
    assert_eq!(arena.free(h), None);
    assert_eq!(arena.get(g), Some(&9));
}

#[test]
fn arena_capacity() {
    let mut arena: GenArena<u8> = GenArena::new(3);
    assert_eq!(arena.free_slots(), 3);
    let a = arena.allocate(1).unwrap();
    let b = arena.allocate(2).unwrap();
    let c = arena.allocate(3).unwrap();
    assert_eq!(arena.allocate(4), None);
    assert_eq!(arena.free_slots(), 0);
    assert_eq!((a.idx, b.idx, c.idx), (0, 1, 2));
    arena.free(b);
    assert_eq!(arena.allocate(5).map(|h| h.idx), Some(1));
}

#[test]
fn arena_iteration_in_slot_order() {
    let mut arena: GenArena<u8> = GenArena::new(4);
    let a = arena.allocate(1).unwrap();
    let b = arena.allocate(2).unwrap();
    let c = arena.allocate(3).unwrap();
    arena.free(b);
    assert_eq!(arena.next_live(0), Some(a));
    assert_eq!(arena.next_live(1), Some(c));
    assert_eq!(arena.next_live(3), None);
    assert_eq!(arena.handle_at(1), None);
    assert_eq!(arena.handle_at(2), Some(c));
}

#[test]
fn get_mut_updates_value() {
    let mut arena: GenArena<u32> = GenArena::new(2);
    let h = arena.allocate(1).unwrap();
    *arena.get_mut(h) = 5;
    assert_eq!(arena.get(h), Some(&5));
}

#[test]
fn invalid_handle_resolves_nowhere() {
    let arena: GenArena<u32> = GenArena::new(2);
    let h = Handle::new_invalid();
    assert_eq!(arena.get(h), None);
    assert_eq!(h.idx(), usize::MAX);
    assert_eq!(arena.capacity(), 2);
}

#[test]
fn free_list_is_a_stack() {
    let mut list = FreeList::new();
    assert!(list.is_empty());
    list.push(3);
    list.push(5);
    assert_eq!(list.len(), 2);
    assert_eq!(list.pop(), Some(5));
    assert_eq!(list.pop(), Some(3));
    assert_eq!(list.pop(), None);
}
