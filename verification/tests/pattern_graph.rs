use pattern_arena::arena::arena_impl::growable_arena::GrowableArena;
use pattern_arena::arena::chain::Chain;
use pattern_arena::arena::equality::ArenaEq;
use pattern_arena::arena::error::ArenaError;
use pattern_arena::arena::handler::ArenaHandler;
use pattern_arena::arena::Arena;
use pattern_arena::ast::note::{Letter, Number, NoteUnit};
use pattern_arena::ast::pattern::{Pattern, TimeUnit, TimedStep};

type Arenas = (
    GrowableArena<Pattern>,
    (
        GrowableArena<Chain<Pattern>>,
        (GrowableArena<TimedStep>, (GrowableArena<Chain<TimedStep>>, ())),
    ),
);

fn new_arenas() -> Arenas {
    (
        GrowableArena::new(),
        (GrowableArena::new(), (GrowableArena::new(), (GrowableArena::new(), ()))),
    )
}

fn chain_of(arenas: &mut Arenas, items: Vec<Pattern>) -> Result<Chain<Pattern>, ArenaError> {
    let mut chain = Chain::Nil;
    for item in items.into_iter().rev() {
        chain = Chain::Cons {
            head: arenas.0.allocate(item)?,
            tail: arenas.1 .0.allocate(chain)?,
        };
    }
    Ok(chain)
}

fn note(n: u16) -> Pattern {
    Pattern::Note(NoteUnit::Number(Number(n)))
}

fn occupied(arenas: &Arenas) -> (usize, usize, usize, usize) {
    let count_p = (0..100u16)
        .filter(|i| arenas.0.has_slot(pattern_arena::arena::index::Index::new(*i)) == Ok(true))
        .count();
    let count_c = (0..100u16)
        .filter(|i| arenas.1 .0.has_slot(pattern_arena::arena::index::Index::new(*i)) == Ok(true))
        .count();
    let count_s = (0..100u16)
        .filter(|i| arenas.1 .1 .0.has_slot(pattern_arena::arena::index::Index::new(*i)) == Ok(true))
        .count();
    let count_sc = (0..100u16)
        .filter(|i| {
            arenas.1 .1 .1 .0.has_slot(pattern_arena::arena::index::Index::new(*i)) == Ok(true)
        })
        .count();
    (count_p, count_c, count_s, count_sc)
}

fn sample(arenas: &mut Arenas) -> Pattern {
    let inner = chain_of(arenas, vec![note(1), Pattern::Silence]).unwrap();
    let a = Pattern::Stack(inner);
    let step_pattern = arenas.0.allocate(Pattern::Note(NoteUnit::Letter(Letter::C))).unwrap();
    let step = arenas.1 .1 .0.allocate(TimedStep(TimeUnit(3), step_pattern)).unwrap();
    let step_tail = arenas.1 .1 .1 .0.allocate(Chain::Nil).unwrap();
    let b = Pattern::TimeCat(Chain::Cons { head: step, tail: step_tail });
    let outer = chain_of(arenas, vec![a, b, note(7)]).unwrap();
    Pattern::Cat(outer)
}

#[test]
fn clone_is_equal_and_takes_new_slots() {
    let mut arenas = new_arenas();
    let pattern = sample(&mut arenas);
    let before = occupied(&arenas);
    assert_eq!(before, (6, 5, 1, 1));
    let copy = pattern.clone_in(&mut arenas);
    assert_eq!(occupied(&arenas), (12, 10, 2, 2));
    assert!(Pattern::eq_in(&pattern, &copy, &arenas, &arenas));
    assert_ne!(pattern, copy);
    copy.drop_in(&mut arenas);
    assert_eq!(occupied(&arenas), before);
    let again = pattern.clone_in(&mut arenas);
    assert!(Pattern::eq_in(&again, &pattern, &arenas, &arenas));
}

#[test]
fn drop_empties_every_slot_reached() {
    let mut arenas = new_arenas();
    let pattern = sample(&mut arenas);
    pattern.drop_in(&mut arenas);
    assert_eq!(occupied(&arenas), (0, 0, 0, 0));
}

#[test]
fn eq_in_compares_across_arena_sets() {
    let mut left = new_arenas();
    let mut right = new_arenas();
    let _padding = right.0.allocate(Pattern::Silence).unwrap();
    let a = sample(&mut left);
    let b = sample(&mut right);
    assert!(Pattern::eq_in(&a, &b, &left, &right));
    assert_ne!(a, b);
}

#[test]
fn eq_in_tells_variants_and_lengths_apart() {
    let mut arenas = new_arenas();
    let short = chain_of(&mut arenas, vec![note(1), note(2)]).unwrap();
    let long = chain_of(&mut arenas, vec![note(1), note(2), note(3)]).unwrap();
    let same = chain_of(&mut arenas, vec![note(1), note(2)]).unwrap();
    let other = chain_of(&mut arenas, vec![note(1), note(9)]).unwrap();
    let cat = Pattern::Cat(short);
    assert!(!Pattern::eq_in(&cat, &Pattern::Cat(long), &arenas, &arenas));
    assert!(!Pattern::eq_in(&cat, &Pattern::Cat(other), &arenas, &arenas));
    assert!(!Pattern::eq_in(&cat, &Pattern::Sequence(same.clone()), &arenas, &arenas));
    assert!(Pattern::eq_in(&cat, &Pattern::Cat(same), &arenas, &arenas));
    assert!(!Pattern::eq_in(&Pattern::Silence, &note(1), &arenas, &arenas));
    assert!(!Pattern::eq_in(&note(2), &note(1), &arenas, &arenas));
    assert!(Pattern::eq_in(&Pattern::Silence, &Pattern::Silence, &arenas, &arenas));
}

#[test]
fn repeated_clone_and_drop_keeps_equality() {
    let mut arenas = new_arenas();
    let pattern = sample(&mut arenas);
    let first = pattern.clone_in(&mut arenas);
    let second = first.clone_in(&mut arenas);
    first.drop_in(&mut arenas);
    let third = second.clone_in(&mut arenas);
    second.drop_in(&mut arenas);
    assert!(Pattern::eq_in(&third, &pattern, &arenas, &arenas));
}

#[test]
fn timed_step_clone_and_eq() {
    let mut arenas = new_arenas();
    let inner = sample(&mut arenas);
    let index = arenas.0.allocate(inner).unwrap();
    let step = TimedStep(TimeUnit(5), index);
    let copy = step.clone_in(&mut arenas);
    assert!(TimedStep::eq_in(&step, &copy, &arenas, &arenas));
    let other = TimedStep(TimeUnit(6), copy.1.clone());
    assert!(!TimedStep::eq_in(&step, &other, &arenas, &arenas));
    step.drop_in(&mut arenas);
    assert_eq!(occupied(&arenas), (7, 5, 1, 1));
}

#[test]
fn long_chains_are_copied_compared_and_dropped() {
    let mut arenas = new_arenas();
    let items: Vec<Pattern> = (0..30000u16).map(note).collect();
    let pattern = Pattern::Sequence(chain_of(&mut arenas, items).unwrap());
    let copy = pattern.clone_in(&mut arenas);
    assert!(Pattern::eq_in(&pattern, &copy, &arenas, &arenas));
    pattern.drop_in(&mut arenas);
    assert_eq!(arenas.0.peek(&pattern_arena::arena::index::Index::new(0)), Err(ArenaError::ExpectedFullSlot));
    match &copy {
        Pattern::Sequence(Chain::Cons { head, .. }) => {
            assert_eq!(arenas.0.peek(head), Ok(&note(0)));
        }
        _ => panic!("the copy of a chain with elements has a first cell"),
    }
    copy.drop_in(&mut arenas);
}
