use pattern_arena::arena::arena_impl::scapegoat_arena::ScapegoatArena;
use pattern_arena::arena::error::ArenaError;
use pattern_arena::arena::index::Index;
use pattern_arena::arena::Arena;

#[test]
fn scapegoat_arena_take_insert_round_trip() {
    let mut arena = ScapegoatArena::<char, 3>::new();
    let a = arena.allocate('A').unwrap();
    assert_eq!(u16::from(a.clone()), 0);
    let b = arena.allocate('B').unwrap();
    assert_eq!(u16::from(b.clone()), 1);
    assert_eq!(arena.take(a.clone()), Ok('A'));
    assert_eq!(arena.has_slot(a.clone()), Ok(false));
    assert_eq!(arena.insert(a.clone(), 'C'), Ok(()));
    assert_eq!(arena.has_slot(a.clone()), Ok(true));
    assert_eq!(arena.take(b.clone()), Ok('B'));
    assert_eq!(arena.take(b), Err(ArenaError::ExpectedFullSlot));
    assert_eq!(arena.peek(&a), Ok(&'C'));
}

#[test]
fn scapegoat_arena_never_allocated_is_out_of_bounds() {
    let mut arena = ScapegoatArena::<u8, 4>::new();
    assert_eq!(arena.take(Index::new(0)), Err(ArenaError::IndexOutOfBounds));
    assert_eq!(arena.insert(Index::new(0), 1), Err(ArenaError::IndexOutOfBounds));
    assert_eq!(arena.has_slot(Index::new(0)), Err(ArenaError::IndexOutOfBounds));
    assert_eq!(arena.peek(&Index::new(0)), Err(ArenaError::IndexOutOfBounds));
    let first = arena.allocate(9).unwrap();
    assert_eq!(arena.insert(first.clone(), 1), Err(ArenaError::ExpectedFreeSlot));
    assert_eq!(arena.take(Index::new(1)), Err(ArenaError::IndexOutOfBounds));
    assert_eq!(arena.take(first.clone()), Ok(9));
    assert_eq!(arena.peek(&first), Err(ArenaError::ExpectedFullSlot));
}

#[test]
fn scapegoat_arena_reports_a_full_tree() {
    let mut arena = ScapegoatArena::<u8, 2>::new();
    assert!(arena.allocate(1).is_ok());
    assert!(arena.allocate(2).is_ok());
    assert_eq!(arena.allocate(3), Err(ArenaError::LimitReached));
    assert_eq!(arena.take(Index::new(0)), Ok(1));
    assert_eq!(arena.allocate(3), Err(ArenaError::LimitReached));
    arena.reset();
    assert_eq!(arena.take(Index::new(0)), Err(ArenaError::IndexOutOfBounds));
    assert_eq!(u16::from(arena.allocate(5).unwrap()), 0);
    assert_eq!(arena.take(Index::new(0)), Ok(5));
}

#[test]
fn scapegoat_arena_answers_out_of_bounds_at_and_past_the_counter() {
    let mut arena = ScapegoatArena::<u8, 8>::new();
    let first = arena.allocate(1).unwrap();
    let second = arena.allocate(2).unwrap();
    for position in [2u16, 3, 7, 8, u16::MAX] {
        assert_eq!(arena.take(Index::new(position)), Err(ArenaError::IndexOutOfBounds));
        assert_eq!(arena.insert(Index::new(position), 9), Err(ArenaError::IndexOutOfBounds));
        assert_eq!(arena.has_slot(Index::new(position)), Err(ArenaError::IndexOutOfBounds));
        assert_eq!(arena.peek(&Index::new(position)), Err(ArenaError::IndexOutOfBounds));
    }
    assert_eq!(arena.has_slot(first.clone()), Ok(true));
    assert_eq!(arena.peek(&second), Ok(&2));
    arena.reset();
    assert_eq!(arena.has_slot(first.clone()), Err(ArenaError::IndexOutOfBounds));
    assert_eq!(arena.peek(&first), Err(ArenaError::IndexOutOfBounds));
    assert_eq!(arena.insert(second.clone(), 5), Err(ArenaError::IndexOutOfBounds));
    assert_eq!(arena.take(second), Err(ArenaError::IndexOutOfBounds));
}
