use pattern_arena::arena::arena_impl::growable_arena::GrowableArena;
use pattern_arena::arena::chain::Chain;
use pattern_arena::arena::equality::ArenaEq;
use pattern_arena::arena::error::ArenaError;
use pattern_arena::arena::handler::ArenaHandler;
use pattern_arena::arena::Arena;
use pattern_arena::ast::note::{Frequency, Letter, NoteUnit, Number};
use pattern_arena::ast::pattern::{Pattern, TimedStep};
use proptest::collection::vec as vec_of;
use proptest::strategy::{BoxedStrategy, Just, Strategy, Union};
use proptest::test_runner::{TestCaseError, TestRunner};

type Arenas = (
    GrowableArena<Pattern>,
    (
        GrowableArena<Chain<Pattern>>,
        (GrowableArena<TimedStep>, (GrowableArena<Chain<TimedStep>>, ())),
    ),
);

/// How to build a pattern, once arenas to build it in are at hand.
#[derive(Debug, Clone)]
enum ArenasTo {
    Silence,
    Note(NoteUnit),
    Cat(Vec<ArenasTo>),
    Sequence(Vec<ArenasTo>),
    Stack(Vec<ArenasTo>),
}

impl ArenasTo {
    fn build(&self, arenas: &mut Arenas) -> Result<Pattern, ArenaError> {
        let (parts, make): (&Vec<ArenasTo>, fn(Chain<Pattern>) -> Pattern) = match self {
            ArenasTo::Silence => return Ok(Pattern::Silence),
            ArenasTo::Note(note) => return Ok(Pattern::Note(*note)),
            ArenasTo::Cat(parts) => (parts, Pattern::Cat),
            ArenasTo::Sequence(parts) => (parts, Pattern::Sequence),
            ArenasTo::Stack(parts) => (parts, Pattern::Stack),
        };
        let mut chain = Chain::Nil;
        for part in parts {
            let built = part.build(arenas)?;
            chain = Chain::Cons {
                head: arenas.0.allocate(built)?,
                tail: arenas.1 .0.allocate(chain)?,
            };
        }
        Ok(make(chain))
    }
}

fn letter(n: u8) -> Letter {
    match n % 12 {
        0 => Letter::A,
        1 => Letter::ASharp,
        2 => Letter::B,
        3 => Letter::C,
        4 => Letter::CSharp,
        5 => Letter::D,
        6 => Letter::DSharp,
        7 => Letter::E,
        8 => Letter::F,
        9 => Letter::FSharp,
        10 => Letter::G,
        _ => Letter::GSharp,
    }
}

fn arb_note_unit() -> BoxedStrategy<NoteUnit> {
    Union::new(vec![
        (0u8..12).prop_map(|n| NoteUnit::Letter(letter(n))).boxed(),
        proptest::num::u16::ANY.prop_map(|n| NoteUnit::Number(Number(n))).boxed(),
        proptest::num::f32::ANY
            .prop_map(|f| NoteUnit::Frequency(Frequency(f.to_bits())))
            .boxed(),
    ])
    .boxed()
}

fn arb_pattern() -> BoxedStrategy<ArenasTo> {
    let leaf = Union::new(vec![
        Just(ArenasTo::Silence).boxed(),
        arb_note_unit().prop_map(ArenasTo::Note).boxed(),
    ]);
    leaf.prop_recursive(
        8,   // levels deep
        256, // maximum number of nodes
        10,  // up to 10 items per collection
        |inner| {
            let functions = Union::new(vec![
                Just(ArenasTo::Cat as fn(Vec<ArenasTo>) -> ArenasTo).boxed(),
                Just(ArenasTo::Sequence as fn(Vec<ArenasTo>) -> ArenasTo).boxed(),
                Just(ArenasTo::Stack as fn(Vec<ArenasTo>) -> ArenasTo).boxed(),
            ]);
            (vec_of(inner, 0..10), functions).prop_map(|(xs, f)| f(xs))
        },
    )
    .boxed()
}

fn growable_arena_tuple() -> Arenas {
    (
        GrowableArena::<Pattern>::new(),
        (
            GrowableArena::<Chain<Pattern>>::new(),
            (GrowableArena::<TimedStep>::new(), (GrowableArena::<Chain<TimedStep>>::new(), ())),
        ),
    )
}

fn with_regenerated_arenas(f: fn(&mut Arenas, Pattern)) {
    let mut test_runner = TestRunner::deterministic();
    let strat = arb_pattern();
    test_runner
        .run(&strat, |pat| {
            let mut arena_tuple = growable_arena_tuple();
            let pattern = pat.build(&mut arena_tuple).unwrap();
            f(&mut arena_tuple, pattern);
            Ok(())
        })
        .unwrap()
}

fn with_reused_arenas(f: fn(&mut Arenas, Pattern)) {
    let mut test_runner = TestRunner::deterministic();
    let strat = arb_pattern();
    let arena_tuple = std::cell::RefCell::new(growable_arena_tuple());
    test_runner
        .run(&strat, |pat| {
            let mut arenas = arena_tuple.borrow_mut();
            let pattern = pat.build(&mut arenas).unwrap();
            f(&mut arenas, pattern);
            Ok(())
        })
        .unwrap()
}

fn do_nothing(_: &mut Arenas, _: Pattern) {}

fn drop_pattern(arena_tuple: &mut Arenas, pattern: Pattern) {
    pattern.drop_in(arena_tuple)
}

fn clone_and_check_equal(arena_tuple: &mut Arenas, pattern: Pattern) {
    let cloned = pattern.clone_in(arena_tuple);
    let equals = ArenaEq::eq_in(&pattern, &cloned, arena_tuple, arena_tuple);
    assert!(equals, "Pattern {pattern:?} and cloned {cloned:?} are distinct")
}

fn clone_and_drop_and_check_equal(arena_tuple: &mut Arenas, pattern: Pattern) {
    let cloned = pattern.clone_in(arena_tuple);
    let cloned_2 = cloned.clone_in(arena_tuple);
    cloned.drop_in(arena_tuple);
    let cloned_3 = cloned_2.clone_in(arena_tuple);
    cloned_2.drop_in(arena_tuple);
    let equals = ArenaEq::eq_in(&cloned_3, &pattern, arena_tuple, arena_tuple);
    assert!(equals, "Pattern {pattern:?} and cloned {cloned_3:?} are distinct")
}

#[test]
fn allocation_in_growable_arenas_should_not_fail() {
    let mut test_runner = TestRunner::deterministic();
    let strat = arb_pattern();
    let test_run_result = test_runner.run(&strat, |pat| {
        let mut arena_tuple = growable_arena_tuple();
        let generated_pattern = pat.build(&mut arena_tuple);
        generated_pattern.map(|_| ()).map_err(|e| {
            TestCaseError::fail(format!(
                "Generating pattern with arena tuple {arena_tuple:?}
                 failed and gave {e:?}"
            ))
        })
    });
    test_run_result.unwrap()
}

#[test]
fn can_allocate_in_growable_arenas_once() {
    with_regenerated_arenas(do_nothing)
}

#[test]
fn can_allocate_in_growable_arenas_multiple() {
    with_reused_arenas(do_nothing)
}

#[test]
fn can_allocate_then_deallocate_once() {
    with_regenerated_arenas(drop_pattern)
}

#[test]
fn can_allocate_then_deallocate_multiple() {
    with_reused_arenas(drop_pattern)
}

#[test]
fn can_clone_and_result_is_equal_once() {
    with_regenerated_arenas(clone_and_check_equal)
}

#[test]
fn can_clone_and_result_is_equal_multiple() {
    with_reused_arenas(clone_and_check_equal)
}

#[test]
fn can_clone_and_drop_many_times_and_result_stays_equal_once() {
    with_regenerated_arenas(clone_and_drop_and_check_equal);
}

#[test]
fn can_clone_and_drop_many_times_and_result_stays_equal_multiple() {
    with_reused_arenas(clone_and_drop_and_check_equal);
}
