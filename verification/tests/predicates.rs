//! Predicate resolution, the lazy cache, arity checking, activation.

use swipl::callable::{Callable, CallablePredicate, LazyCallablePredicate, PredicateWrapError};
use swipl::context::Context;
use swipl::engine::{Engine, Registry};
use swipl::predicate::PredicateBehavior;

fn call_once_generic<C: Callable<0>>(callable: C, context: &mut Context) {
    callable.open(context, None, []);
    assert_eq!(Ok(()), context.once());
}

#[test]
fn resolution_is_idempotent() {
    let mut reg = Registry::new();
    let engine = Engine::new(&mut reg);
    let activation = engine.activate(&mut reg).unwrap();
    let mut context = activation.into_context();

    let p1 = context.resolve_predicate("user", "foo", 2);
    let p2 = context.resolve_predicate("user", "foo", 2);
    assert_eq!(p1.predicate_ptr(), p2.predicate_ptr());
    // A different triple resolves to a different handle.
    let p3 = context.resolve_predicate("user", "foo", 3);
    assert_ne!(p1.predicate_ptr(), p3.predicate_ptr());
    let p4 = context.resolve_predicate("other", "foo", 2);
    assert_ne!(p1.predicate_ptr(), p4.predicate_ptr());
}

#[test]
fn lazy_cells_converge_on_one_handle() {
    let mut reg = Registry::new();
    let engine = Engine::new(&mut reg);
    let activation = engine.activate(&mut reg).unwrap();
    let mut context = activation.into_context();

    // Two independent cells for the same triple, as two threads racing
    // on resolution would hold: both resolve to the same handle.
    let mut cell_a = LazyCallablePredicate::<0>::new(Some("user"), "shared");
    let mut cell_b = LazyCallablePredicate::<0>::new(Some("user"), "shared");
    let c1 = cell_a.as_callable(&mut context);
    let c2 = cell_b.as_callable(&mut context);
    let c3 = cell_a.as_callable(&mut context);
    let direct = context.resolve_predicate("user", "shared", 0);
    let c4 = CallablePredicate::<0>::new(direct).unwrap();
    let _ = (c1, c2, c3, c4);
}

#[test]
fn lazy_predicate_opens_queries() {
    let mut reg = Registry::new();
    let engine = Engine::new(&mut reg);
    let activation = engine.activate(&mut reg).unwrap();
    let mut context = activation.into_context();
    context.register_predicate("user", "noop", 0, PredicateBehavior::Succeed);

    let mut lazy = LazyCallablePredicate::<0>::new(Some("user"), "noop");
    lazy.open(&mut context, None, []);
    assert_eq!(Ok(()), context.once());
    lazy.open(&mut context, None, []);
    assert_eq!(Ok(()), context.once());
    assert!(!context.has_pending_exception());
}

#[test]
fn wrap_wrong_arity() {
    let mut reg = Registry::new();
    let engine = Engine::new(&mut reg);
    let activation = engine.activate(&mut reg).unwrap();
    let mut context = activation.into_context();

    let p = context.resolve_predicate("user", "pair", 2);
    // A mismatching expectation never wraps successfully.
    match CallablePredicate::<1>::new(p) {
        Err(PredicateWrapError::WrongArity { expected, actual }) => {
            assert_eq!(1, expected);
            assert_eq!(2, actual);
        },
        Ok(_) => panic!("arity mismatch accepted"),
    }
    assert!(CallablePredicate::<2>::new(p).is_ok());
}

#[test]
fn second_activation_rejected() {
    let mut reg = Registry::new();
    let first = Engine::new(&mut reg);
    let second = Engine::new(&mut reg);

    let activation = first.activate(&mut reg).unwrap();
    // Activating another engine while one is active is rejected; the
    // engine comes back untouched.
    let second = match second.activate(&mut reg) {
        Err(e) => e,
        Ok(_) => panic!("second activation accepted"),
    };
    // Deactivating frees the slot; reactivation then succeeds.
    let first = activation.deactivate(&mut reg);
    assert!(reg.active_engine().is_none());
    let activation = second.activate(&mut reg).unwrap();
    activation.deactivate(&mut reg);
    let activation = first.activate(&mut reg).unwrap();
    activation.deactivate(&mut reg);
}

#[test]
fn generic_invocation_through_callable() {
    let mut reg = Registry::new();
    let engine = Engine::new(&mut reg);
    let activation = engine.activate(&mut reg).unwrap();
    let mut context = activation.into_context();

    let p = context.register_predicate("user", "noop", 0, PredicateBehavior::Succeed);
    let callable = CallablePredicate::<0>::new(p).unwrap();
    call_once_generic(callable, &mut context);
    assert!(!context.has_pending_exception());
}

#[test]
fn predicate_reports_its_arity() {
    let mut reg = Registry::new();
    let engine = Engine::new(&mut reg);
    let activation = engine.activate(&mut reg).unwrap();
    let mut context = activation.into_context();

    let p = context.resolve_predicate("user", "triple", 3);
    assert_eq!(3, p.arity());
}
