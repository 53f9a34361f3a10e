//! The query lifecycle: solutions, cut, discard, once, ignore.

use swipl::callable::CallablePredicate;
use swipl::engine::{Engine, Registry};
use swipl::predicate::PredicateBehavior;
use swipl::result::PrologError;
use swipl::term::TermValue;

#[test]
fn zero_arity_succeeds_once() {
    let mut reg = Registry::new();
    let engine = Engine::new(&mut reg);
    let activation = engine.activate(&mut reg).unwrap();
    let mut context = activation.into_context();

    let p = context.register_predicate("user", "noop", 0, PredicateBehavior::Succeed);
    let callable = CallablePredicate::<0>::new(p).unwrap();
    callable.open(&mut context, None, []);
    assert_eq!(Ok(()), context.once());
    assert!(!context.has_pending_exception());
    assert_eq!(0, context.depth());
}

#[test]
fn unify_argument_roundtrip() {
    let mut reg = Registry::new();
    let engine = Engine::new(&mut reg);
    let activation = engine.activate(&mut reg).unwrap();
    let mut context = activation.into_context();

    let p = context.register_predicate(
        "user",
        "fixed",
        1,
        PredicateBehavior::UnifyArg(TermValue::UInt(42)),
    );
    let callable = CallablePredicate::<1>::new(p).unwrap();
    let term = context.new_term_ref();
    callable.open(&mut context, None, [term]);
    assert_eq!(Ok(false), context.next_solution());
    context.cut();
    // Reading the caller's fresh term back yields the fixed value.
    assert_eq!(Some(42), term.get::<u64>(&context));
}

#[test]
fn no_solutions_is_failure() {
    let mut reg = Registry::new();
    let engine = Engine::new(&mut reg);
    let activation = engine.activate(&mut reg).unwrap();
    let mut context = activation.into_context();

    let p = context.register_predicate("user", "never", 1, PredicateBehavior::Fail);
    let callable = CallablePredicate::<1>::new(p).unwrap();
    let term = context.new_term_ref();
    callable.open(&mut context, None, [term]);
    // Logical failure, not an exception.
    assert_eq!(Err(PrologError::Failure), context.next_solution());
    assert!(!context.has_pending_exception());
    context.discard();
}

#[test]
fn exception_surfaces_and_stays_pending() {
    let mut reg = Registry::new();
    let engine = Engine::new(&mut reg);
    let activation = engine.activate(&mut reg).unwrap();
    let mut context = activation.into_context();

    let p = context.register_predicate(
        "user",
        "boom",
        0,
        PredicateBehavior::Raise(TermValue::Atom(String::from("kaboom"))),
    );
    let callable = CallablePredicate::<0>::new(p).unwrap();
    callable.open(&mut context, None, []);
    assert_eq!(Err(PrologError::Exception), context.next_solution());
    context.discard();
    // A subsequent fetch of the pending exception is non-empty.
    match context.pending_exception() {
        Some(TermValue::Atom(name)) => assert_eq!("kaboom", name),
        other => panic!("expected a pending atom exception, got {:?}", other.is_some()),
    }
    context.clear_exception();
    assert!(!context.has_pending_exception());
}

#[test]
fn undefined_predicate_raises() {
    let mut reg = Registry::new();
    let engine = Engine::new(&mut reg);
    let activation = engine.activate(&mut reg).unwrap();
    let mut context = activation.into_context();

    let p = context.resolve_predicate("user", "missing", 0);
    let callable = CallablePredicate::<0>::new(p).unwrap();
    callable.open(&mut context, None, []);
    assert_eq!(Err(PrologError::Exception), context.next_solution());
    context.discard();
    match context.pending_exception() {
        Some(TermValue::Atom(name)) => assert_eq!("missing", name),
        other => panic!("expected a pending atom exception, got {:?}", other.is_some()),
    }
}

#[test]
fn multiple_solutions_then_exhaustion() {
    let mut reg = Registry::new();
    let engine = Engine::new(&mut reg);
    let activation = engine.activate(&mut reg).unwrap();
    let mut context = activation.into_context();

    let p = context.register_predicate("user", "twice", 0, PredicateBehavior::SucceedTimes(2));
    let callable = CallablePredicate::<0>::new(p).unwrap();
    callable.open(&mut context, None, []);
    assert_eq!(Ok(true), context.next_solution());
    assert_eq!(Ok(true), context.next_solution());
    assert_eq!(Err(PrologError::Failure), context.next_solution());
    context.discard();
}

#[test]
fn unify_argument_conflict_fails_logically() {
    let mut reg = Registry::new();
    let engine = Engine::new(&mut reg);
    let activation = engine.activate(&mut reg).unwrap();
    let mut context = activation.into_context();

    let p = context.register_predicate(
        "user",
        "fixed",
        1,
        PredicateBehavior::UnifyArg(TermValue::UInt(42)),
    );
    let callable = CallablePredicate::<1>::new(p).unwrap();
    let term = context.new_term_ref();
    assert!(term.unify(&mut context, 43_u64));
    callable.open(&mut context, None, [term]);
    assert_eq!(Err(PrologError::Failure), context.next_solution());
    assert!(!context.has_pending_exception());
    context.discard();
    // The conflicting binding made before the query is untouched.
    assert_eq!(Some(43), term.get::<u64>(&context));
}

#[test]
fn zero_solutions_counts_as_exhausted() {
    let mut reg = Registry::new();
    let engine = Engine::new(&mut reg);
    let activation = engine.activate(&mut reg).unwrap();
    let mut context = activation.into_context();

    let p = context.register_predicate("user", "none", 0, PredicateBehavior::SucceedTimes(0));
    let callable = CallablePredicate::<0>::new(p).unwrap();
    callable.open(&mut context, None, []);
    assert_eq!(Err(PrologError::Failure), context.next_solution());
    context.discard();
}

#[test]
fn once_equals_next_solution_then_cut() {
    let mut reg = Registry::new();
    let engine = Engine::new(&mut reg);
    let activation = engine.activate(&mut reg).unwrap();
    let mut context = activation.into_context();
    let p = context.register_predicate(
        "user",
        "fixed",
        1,
        PredicateBehavior::UnifyArg(TermValue::UInt(7)),
    );
    let callable = CallablePredicate::<1>::new(p).unwrap();

    // One composition: next_solution, then cut.
    let t1 = context.new_term_ref();
    callable.open(&mut context, None, [t1]);
    assert_eq!(Ok(false), context.next_solution());
    context.cut();

    // The other: once.
    let t2 = context.new_term_ref();
    callable.open(&mut context, None, [t2]);
    assert_eq!(Ok(()), context.once());

    // Both leave the same observable state behind.
    assert_eq!(t1.get::<u64>(&context), t2.get::<u64>(&context));
    assert_eq!(Some(7), t2.get::<u64>(&context));
    assert_eq!(0, context.depth());
}

#[test]
fn once_surfaces_exception_without_committing() {
    let mut reg = Registry::new();
    let engine = Engine::new(&mut reg);
    let activation = engine.activate(&mut reg).unwrap();
    let mut context = activation.into_context();
    let p = context.register_predicate(
        "user",
        "boom",
        0,
        PredicateBehavior::Raise(TermValue::UInt(1)),
    );
    let callable = CallablePredicate::<0>::new(p).unwrap();
    callable.open(&mut context, None, []);
    assert_eq!(Err(PrologError::Exception), context.once());
    assert!(context.has_pending_exception());
    assert_eq!(0, context.depth());
}

#[test]
fn ignore_swallows_failure_not_exception() {
    let mut reg = Registry::new();
    let engine = Engine::new(&mut reg);
    let activation = engine.activate(&mut reg).unwrap();
    let mut context = activation.into_context();

    let fail = context.register_predicate("user", "never", 0, PredicateBehavior::Fail);
    let callable = CallablePredicate::<0>::new(fail).unwrap();
    callable.open(&mut context, None, []);
    assert_eq!(Ok(()), context.ignore());

    let good = context.register_predicate("user", "noop", 0, PredicateBehavior::Succeed);
    let callable = CallablePredicate::<0>::new(good).unwrap();
    callable.open(&mut context, None, []);
    assert_eq!(Ok(()), context.ignore());

    let boom = context.register_predicate(
        "user",
        "boom",
        0,
        PredicateBehavior::Raise(TermValue::UInt(3)),
    );
    let callable = CallablePredicate::<0>::new(boom).unwrap();
    context.clear_exception();
    callable.open(&mut context, None, []);
    assert_eq!(Err(PrologError::Exception), context.ignore());
    assert!(context.has_pending_exception());
}

#[test]
fn cut_retains_bindings_discard_undoes_them() {
    let mut reg = Registry::new();
    let engine = Engine::new(&mut reg);
    let activation = engine.activate(&mut reg).unwrap();
    let mut context = activation.into_context();
    let p = context.register_predicate(
        "user",
        "fixed",
        1,
        PredicateBehavior::UnifyArg(TermValue::UInt(11)),
    );
    let callable = CallablePredicate::<1>::new(p).unwrap();

    let kept = context.new_term_ref();
    callable.open(&mut context, None, [kept]);
    assert_eq!(Ok(false), context.next_solution());
    context.cut();
    assert_eq!(Some(11), kept.get::<u64>(&context));

    let dropped = context.new_term_ref();
    callable.open(&mut context, None, [dropped]);
    assert_eq!(Ok(false), context.next_solution());
    context.discard();
    // The parent context's term is indistinguishable from before the
    // query opened: unbound again.
    assert_eq!(None, dropped.get::<u64>(&context));
    assert!(dropped.unify(&mut context, 12_u64));
}

#[test]
fn query_inside_frame_inside_query() {
    let mut reg = Registry::new();
    let engine = Engine::new(&mut reg);
    let activation = engine.activate(&mut reg).unwrap();
    let mut context = activation.into_context();
    let many = context.register_predicate("user", "many", 0, PredicateBehavior::SucceedTimes(3));
    let fixed = context.register_predicate(
        "user",
        "fixed",
        1,
        PredicateBehavior::UnifyArg(TermValue::UInt(8)),
    );
    let many = CallablePredicate::<0>::new(many).unwrap();
    let fixed = CallablePredicate::<1>::new(fixed).unwrap();

    many.open(&mut context, None, []);
    assert_eq!(Ok(true), context.next_solution());
    // No terms or queries directly inside an open query: a nested frame
    // makes both legal again.
    context.open_frame();
    let t = context.new_term_ref();
    fixed.open(&mut context, None, [t]);
    assert_eq!(Ok(()), context.once());
    assert_eq!(Some(8), t.get::<u64>(&context));
    context.close_frame();
    assert_eq!(Ok(true), context.next_solution());
    context.discard();
    assert_eq!(0, context.depth());
}
