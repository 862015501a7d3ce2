use pattern_arena::arena::arena_impl::growable_arena::{GAMap, GrowableArena};
use pattern_arena::arena::arena_impl::helpers::{
    entry_is_full, entry_value, insert_entry, take_entry, with_entry, IndexableMapArena,
};
use pattern_arena::arena::chain::Chain;
use pattern_arena::arena::error::ArenaError;
use pattern_arena::arena::extension::{AllocMany, Inspect};
use pattern_arena::arena::index::Index;
use pattern_arena::arena::Arena;
use pattern_arena::ast::note::{Letter, Note};

#[test]
fn engine_allocates_only_into_slots_that_exist() {
    let mut engine = IndexableMapArena::<u8, GAMap<u8>>::new(GAMap::new());
    assert_eq!(engine.allocate(1), Err(ArenaError::IndexOutOfBounds));
    engine.with_inner(|_, map| map.grow());
    assert_eq!(engine.allocate(1).map(u16::from), Ok(0));
    assert_eq!(engine.allocate(2), Err(ArenaError::IndexOutOfBounds));
    assert_eq!(engine.has_slot(Index::new(0)), Ok(true));
    assert_eq!(engine.peek(&Index::new(0)), Ok(&1));
    assert_eq!(engine.take(Index::new(0)), Ok(1));
    assert_eq!(engine.take(Index::new(0)), Err(ArenaError::ExpectedFullSlot));
    assert_eq!(engine.insert(Index::new(0), 9), Ok(()));
    assert_eq!(engine.insert(Index::new(0), 9), Err(ArenaError::ExpectedFreeSlot));
    assert_eq!(engine.insert(Index::new(1), 9), Err(ArenaError::IndexOutOfBounds));
}

#[test]
fn engine_counter_moves_past_an_occupied_slot() {
    let mut engine = IndexableMapArena::<u8, GAMap<u8>>::new(GAMap::new());
    engine.with_inner(|_, map| {
        map.grow();
        map.grow();
    });
    assert_eq!(engine.insert(Index::new(0), 5), Ok(()));
    assert_eq!(engine.allocate(6), Err(ArenaError::ExpectedFreeSlot));
    assert_eq!(engine.allocate(7).map(u16::from), Ok(1));
    assert_eq!(engine.with_inner(|next_index, map| (*next_index, map.len())), (2, 2));
    engine.with_inner(|next_index, _| *next_index = u16::MAX);
    assert_eq!(engine.allocate(8), Err(ArenaError::LimitReached));
    assert_eq!(engine.with_inner(|next_index, _| *next_index), u16::MAX);
}

#[test]
fn engine_with_slot_runs_action_then_counter_update() {
    let mut engine = IndexableMapArena::<u8, GAMap<u8>>::new(GAMap::new());
    engine.with_inner(|_, map| map.grow());
    let missing: Result<u8, ArenaError> =
        engine.with_slot(Index::new(3), |counter| *counter += 1, |_| Ok(0));
    assert_eq!(missing, Err(ArenaError::IndexOutOfBounds));
    assert_eq!(engine.with_inner(|next_index, _| *next_index), 0);
    let found = engine.with_slot(
        Index::new(0),
        |counter| *counter += 4,
        |entry| {
            *entry = Some(3);
            Ok(7u8)
        },
    );
    assert_eq!(found, Ok(7));
    assert_eq!(engine.with_inner(|next_index, _| *next_index), 4);
    assert_eq!(engine.peek(&Index::new(0)), Ok(&3));
}

#[test]
fn slot_functions_answer_for_every_lookup() {
    let mut full = Some(4u8);
    let mut empty: Option<u8> = None;
    assert_eq!(entry_is_full(Some(&full)), Ok(true));
    assert_eq!(entry_is_full(Some(&empty)), Ok(false));
    assert_eq!(entry_is_full::<u8>(None), Err(ArenaError::IndexOutOfBounds));
    assert_eq!(entry_value(Some(&full)), Ok(&4));
    assert_eq!(entry_value(Some(&empty)), Err(ArenaError::ExpectedFullSlot));
    assert_eq!(entry_value::<u8>(None), Err(ArenaError::IndexOutOfBounds));
    assert_eq!(insert_entry(&mut full, 5), Err(ArenaError::ExpectedFreeSlot));
    assert_eq!(full, Some(4));
    assert_eq!(insert_entry(&mut empty, 5), Ok(()));
    assert_eq!(empty, Some(5));
    assert_eq!(take_entry(&mut empty), Ok(5));
    assert_eq!(take_entry(&mut empty), Err(ArenaError::ExpectedFullSlot));
    let mut counter = 1u16;
    let none: Result<u8, ArenaError> = with_entry(None, &mut counter, |c| *c += 1, |_: &mut Option<u8>| Ok(1));
    assert_eq!(none, Err(ArenaError::IndexOutOfBounds));
    assert_eq!(counter, 1);
    let some = with_entry(Some(&mut full), &mut counter, |c| *c += 1, take_entry);
    assert_eq!(some, Ok(4));
    assert_eq!((counter, full), (2, None));
}

#[test]
fn index_keeps_its_position_across_types() {
    let index = Index::<u8>::new(7);
    let erased = index.clone().erase();
    assert_eq!(u16::from(erased.clone()), 7);
    let typed: Index<char> = erased.transmute();
    assert_eq!(usize::from(typed.clone()), 7);
    assert_eq!(typed.position(), 7);
    let mut moved = index.clone();
    moved.increment_by(3);
    assert_eq!(moved, Index::new(10));
    assert_ne!(moved, index);
    assert_eq!(index.number(), 7);
}

#[test]
fn handles_are_ordered_by_position() {
    assert!(Index::<u32>::new(3) < Index::<u32>::new(4));
    assert!(Index::<u32>::new(4) > Index::<u32>::new(3));
    assert!(Index::<u32>::new(3) <= Index::<u32>::new(3));
    assert!(!(Index::<u32>::new(4) < Index::<u32>::new(4)));
    assert_eq!(Index::<u32>::new(3).cmp(&Index::<u32>::new(4)), std::cmp::Ordering::Less);
    assert_eq!(
        Index::<u32>::new(9).partial_cmp(&Index::<u32>::new(2)),
        Some(std::cmp::Ordering::Greater)
    );
}

#[test]
fn error_messages() {
    assert_eq!(ArenaError::IndexOutOfBounds.message(), "[Arena]: Index out of bounds");
    assert_eq!(ArenaError::LimitReached.message(), "[Arena::alloc]: Arena limit reached");
    assert_eq!(
        ArenaError::ExpectedFreeSlot.message(),
        "[Arena::alloc]: Arena slot should have been empty at the given index"
    );
    assert_eq!(
        ArenaError::ExpectedFullSlot.message(),
        "[Arena::take]: Arena slot should have been full at the given index"
    );
}

#[test]
fn note_octaves_start_at_one() {
    assert_eq!(Note::new(Letter::A, 0), None);
    assert_eq!(Note::new(Letter::A, 4), Some(Note { note: Letter::A, octave: 4 }));
}

fn chain_of(
    heads: &mut GrowableArena<u32>,
    cells: &mut GrowableArena<Chain<u32>>,
    items: &[u32],
) -> Chain<u32> {
    let mut chain = Chain::Nil;
    for item in items.iter().rev() {
        chain = Chain::Cons {
            head: heads.allocate(*item).unwrap(),
            tail: cells.allocate(chain).unwrap(),
        };
    }
    chain
}

#[test]
fn walk_over_nil_is_empty() {
    let heads = GrowableArena::<u32>::new();
    let cells = GrowableArena::<Chain<u32>>::new();
    let chain = Chain::<u32>::Nil;
    assert_eq!(chain.iter(&heads, &cells, |x| *x).next(), None);
    assert_eq!(chain.iter(&heads, &cells, |x| *x).collect(), Vec::<u32>::new());
}

#[test]
fn walk_yields_every_element_from_the_head() {
    let mut heads = GrowableArena::<u32>::new();
    let mut cells = GrowableArena::<Chain<u32>>::new();
    let chain = chain_of(&mut heads, &mut cells, &[10, 20, 30, 40]);
    assert_eq!(chain.iter(&heads, &cells, |x| *x + 1).collect(), vec![11, 21, 31, 41]);
    let mut walk = chain.iter(&heads, &cells, |x| *x);
    assert_eq!(walk.next(), Some(10));
    assert_eq!(walk.next(), Some(20));
    assert_eq!(walk.next(), Some(30));
    assert_eq!(walk.next(), Some(40));
    assert_eq!(walk.next(), None);
    assert_eq!(walk.next(), None);
}

#[test]
fn walk_ends_silently_where_a_handle_does_not_resolve() {
    let mut heads = GrowableArena::<u32>::new();
    let mut cells = GrowableArena::<Chain<u32>>::new();
    let chain = chain_of(&mut heads, &mut cells, &[1, 2, 3]);
    // The elements were allocated from the last to the first.
    assert_eq!(heads.take(Index::new(1)), Ok(2));
    assert_eq!(chain.iter(&heads, &cells, |x| *x).collect(), vec![1]);
    assert_eq!(heads.insert(Index::new(1), 2), Ok(()));
    assert_eq!(cells.take(Index::new(1)), Ok(Chain::Cons { head: Index::new(0), tail: Index::new(0) }));
    assert_eq!(chain.iter(&heads, &cells, |x| *x).collect(), vec![1, 2]);
}

#[test]
fn walk_mut_changes_elements_in_place() {
    let mut heads = GrowableArena::<u32>::new();
    let mut cells = GrowableArena::<Chain<u32>>::new();
    let chain = chain_of(&mut heads, &mut cells, &[1, 2, 3]);
    {
        let mut walk = chain.iter_mut(&mut heads, &cells, |x: &mut u32| {
            *x *= 10;
            *x + 1
        });
        assert_eq!(walk.next(), Some(11));
        assert_eq!(walk.next(), Some(21));
        assert_eq!(walk.next(), Some(31));
        assert_eq!(walk.next(), None);
    }
    assert_eq!(chain.iter(&heads, &cells, |x| *x).collect(), vec![10, 20, 30]);
}

#[test]
fn inspect_reads_and_inspect_mut_writes() {
    let mut arena = GrowableArena::<u32>::new();
    let index = arena.allocate(5).unwrap();
    assert_eq!(arena.inspect(index.clone(), |x| *x * 2), Ok(10));
    assert_eq!(arena.inspect(Index::new(9), |x| *x), Err(ArenaError::IndexOutOfBounds));
    let changed = arena.inspect_mut(index.clone(), |x| {
        *x += 1;
        *x
    });
    assert_eq!(changed, Ok(6));
    assert_eq!(arena.peek(&index), Ok(&6));
    assert_eq!(arena.take(index.clone()), Ok(6));
    assert_eq!(arena.inspect(index.clone(), |x| *x), Err(ArenaError::ExpectedFullSlot));
    assert_eq!(arena.inspect_mut(index.clone(), |x| *x), Err(ArenaError::ExpectedFullSlot));
    assert_eq!(arena.has_slot(index), Ok(false));
}

#[test]
fn alloc_many_hands_over_handles_in_order() {
    let mut arena = GrowableArena::<char>::new();
    arena.allocate('z').unwrap();
    let made = arena.alloc_many(vec!['a', 'b', 'c'], |indices| {
        indices.into_iter().map(u16::from).collect::<Vec<u16>>()
    });
    assert_eq!(made, Ok(vec![1, 2, 3]));
    assert_eq!(arena.peek(&Index::new(2)), Ok(&'b'));
}

#[test]
fn alloc_many_stops_at_the_limit() {
    let mut arena =
        pattern_arena::arena::arena_impl::scapegoat_arena::ScapegoatArena::<char, 2>::new();
    let made = arena.alloc_many(vec!['a', 'b', 'c'], |indices| indices.len());
    assert_eq!(made, Err(ArenaError::LimitReached));
    assert_eq!(arena.peek(&Index::new(1)), Ok(&'b'));
    assert_eq!(arena.peek(&Index::new(2)), Err(ArenaError::IndexOutOfBounds));
}
