use raytracing_in_rust::arena::Arena;

#[test]
fn a_new_arena_holds_its_default_at_index_zero() {
    let arena = Arena::with_default("default");
    assert_eq!(arena.len(), 1);
    assert_eq!(*arena.get(0), "default");
}

#[test]
fn added_entries_read_back_at_their_indices() {
    let mut arena = Arena::with_default(0u32);
    let first = arena.add(7);
    let second = arena.add(8);
    assert_eq!((first, second), (1, 2));
    assert_eq!(arena.len(), 3);
    assert_eq!(*arena.get(0), 0);
    assert_eq!(*arena.get(first), 7);
    assert_eq!(*arena.get(second), 8);
}
