use pattern_arena::arena::arena_impl::scapegoat_arena::ScapegoatArena;
use pattern_arena::arena::arena_impl::growable_arena::GrowableArena;
use pattern_arena::arena::error::ArenaError;
use pattern_arena::arena::index::Index;
use pattern_arena::arena::Arena;

#[test]
fn bounded_arena_take_insert_round_trip() {
    let mut arena = ScapegoatArena::<char, 3>::new();
    let a = arena.allocate('A').unwrap();
    assert_eq!(u16::from(a.clone()), 0);
    let b = arena.allocate('B').unwrap();
    assert_eq!(u16::from(b.clone()), 1);
    assert_eq!(arena.take(a.clone()), Ok('A'));
    assert_eq!(arena.has_slot(a.clone()), Ok(false));
    assert_eq!(arena.insert(a.clone(), 'C'), Ok(()));
    assert_eq!(arena.has_slot(a.clone()), Ok(true));
    assert_eq!(arena.take(b.clone()), Ok('B'));
    assert_eq!(arena.take(b), Err(ArenaError::ExpectedFullSlot));
    assert_eq!(arena.peek(&a), Ok(&'C'));
}

#[test]
fn bounded_arena_reports_exhausted_capacity() {
    let mut arena = ScapegoatArena::<u8, 2>::new();
    assert!(arena.allocate(1).is_ok());
    assert!(arena.allocate(2).is_ok());
    assert_eq!(arena.allocate(3), Err(ArenaError::LimitReached));
    assert_eq!(arena.take(Index::new(2)), Err(ArenaError::IndexOutOfBounds));
}

#[test]
fn growable_arena_stops_at_the_index_limit() {
    let mut arena = GrowableArena::<u8>::new();
    for i in 0..u16::MAX {
        let index = arena.allocate(0).unwrap();
        assert_eq!(u16::from(index), i);
    }
    assert_eq!(arena.allocate(0), Err(ArenaError::LimitReached));
    arena.reset();
    assert_eq!(u16::from(arena.allocate(7).unwrap()), 0);
}

#[test]
fn growable_arena_slots_are_freed_and_refilled_in_place() {
    let mut arena = GrowableArena::<u32>::new();
    assert_eq!(arena.take(Index::new(0)), Err(ArenaError::IndexOutOfBounds));
    assert_eq!(arena.has_slot(Index::new(0)), Err(ArenaError::IndexOutOfBounds));
    let first = arena.allocate(11).unwrap();
    let second = arena.allocate(22).unwrap();
    assert_ne!(first, second);
    assert_eq!(arena.insert(first.clone(), 33), Err(ArenaError::ExpectedFreeSlot));
    assert_eq!(arena.take(first.clone()), Ok(11));
    assert_eq!(arena.take(first.clone()), Err(ArenaError::ExpectedFullSlot));
    assert_eq!(arena.peek(&first), Err(ArenaError::ExpectedFullSlot));
    // A freed slot is not handed out again by an allocation.
    let third = arena.allocate(44).unwrap();
    assert_eq!(u16::from(third), 2);
    assert_eq!(arena.has_slot(first.clone()), Ok(false));
    assert_eq!(arena.insert(first.clone(), 33), Ok(()));
    assert_eq!(arena.take(first), Ok(33));
    assert_eq!(arena.take(second), Ok(22));
    assert_eq!(arena.insert(Index::new(3), 1), Err(ArenaError::IndexOutOfBounds));
}
