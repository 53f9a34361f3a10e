//! Unification and readback of term values.

use swipl::engine::{Engine, Registry};

#[test]
fn unify_some_terms_with_success() {
    let mut reg = Registry::new();
    let engine = Engine::new(&mut reg);
    let activation = engine.activate(&mut reg).unwrap();
    let mut context = activation.into_context();

    let term1 = context.new_term_ref();
    let term2 = context.new_term_ref();
    assert!(term1.unify(&mut context, 42_u64));
    assert!(term2.unify(&mut context, 42_u64));
    assert!(term1.unify(&mut context, &term2));
}

#[test]
fn unify_some_terms_with_failure() {
    let mut reg = Registry::new();
    let engine = Engine::new(&mut reg);
    let activation = engine.activate(&mut reg).unwrap();
    let mut context = activation.into_context();

    let term1 = context.new_term_ref();
    let term2 = context.new_term_ref();
    assert!(term1.unify(&mut context, 42_u64));
    assert!(term2.unify(&mut context, 43_u64));
    assert!(!term1.unify(&mut context, &term2));
}

#[test]
fn unify_twice_different_failure() {
    let mut reg = Registry::new();
    let engine = Engine::new(&mut reg);
    let activation = engine.activate(&mut reg).unwrap();
    let mut context = activation.into_context();

    let term = context.new_term_ref();
    assert!(term.unify(&mut context, 42_u64));
    assert!(!term.unify(&mut context, 43_u64));
}

#[test]
fn unify_twice_different_with_rewind_success() {
    let mut reg = Registry::new();
    let engine = Engine::new(&mut reg);
    let activation = engine.activate(&mut reg).unwrap();
    let mut context = activation.into_context();
    let term = context.new_term_ref();
    context.open_frame();

    assert!(term.unify(&mut context, 42_u64));
    context.rewind_frame();
    assert!(term.unify(&mut context, 43_u64));
}

#[test]
fn unify_and_get_bools() {
    let mut reg = Registry::new();
    let engine = Engine::new(&mut reg);
    let activation = engine.activate(&mut reg).unwrap();
    let mut context = activation.into_context();

    let term1 = context.new_term_ref();
    assert!(term1.get::<bool>(&context).is_none());
    term1.unify(&mut context, true);
    assert_eq!(Some(true), term1.get::<bool>(&context));
    let term2 = context.new_term_ref();
    term2.unify(&mut context, false);
    assert_eq!(Some(false), term2.get::<bool>(&context));
}

#[test]
fn unify_and_get_u64s() {
    let mut reg = Registry::new();
    let engine = Engine::new(&mut reg);
    let activation = engine.activate(&mut reg).unwrap();
    let mut context = activation.into_context();

    let term1 = context.new_term_ref();
    assert!(term1.get::<u64>(&context).is_none());
    term1.unify(&mut context, 42_u64);
    assert_eq!(Some(42), term1.get::<u64>(&context));
    let term2 = context.new_term_ref();
    term2.unify(&mut context, 0xffffffff_u64);
    assert_eq!(Some(0xffffffff), term2.get::<u64>(&context));
    let term3 = context.new_term_ref();
    term3.unify(&mut context, 0xffffffffffffffff_u64);
    assert_eq!(Some(0xffffffffffffffff), term3.get::<u64>(&context));
}

#[test]
fn unify_and_get_strings() {
    let mut reg = Registry::new();
    let engine = Engine::new(&mut reg);
    let activation = engine.activate(&mut reg).unwrap();
    let mut context = activation.into_context();

    let term1 = context.new_term_ref();
    assert!(term1.get::<String>(&context).is_none());
    term1.unify(&mut context, "hello there");
    assert_eq!("hello there", term1.get::<String>(&context).unwrap());
}

#[test]
fn unify_and_get_string_refs() {
    let mut reg = Registry::new();
    let engine = Engine::new(&mut reg);
    let activation = engine.activate(&mut reg).unwrap();
    let mut context = activation.into_context();

    let term1 = context.new_term_ref();
    term1.get_str(&context, |s| assert!(s.is_none()));
    term1.unify(&mut context, "hello there");
    term1.get_str(&context, |s| assert_eq!("hello there", s.unwrap()));
}

#[test]
fn unify_and_get_different_types_fails() {
    let mut reg = Registry::new();
    let engine = Engine::new(&mut reg);
    let activation = engine.activate(&mut reg).unwrap();
    let mut context = activation.into_context();

    let term1 = context.new_term_ref();
    term1.unify(&mut context, 42_u64);
    assert_eq!(None, term1.get::<bool>(&context));
}

#[test]
fn unify_and_get_i64s() {
    let mut reg = Registry::new();
    let engine = Engine::new(&mut reg);
    let activation = engine.activate(&mut reg).unwrap();
    let mut context = activation.into_context();

    let term = context.new_term_ref();
    assert!(term.get::<i64>(&context).is_none());
    term.unify(&mut context, -5_i64);
    assert_eq!(Some(-5), term.get::<i64>(&context));
    assert!(!term.unify(&mut context, -6_i64));
}

#[test]
fn atoms_and_strings_are_distinct() {
    let mut reg = Registry::new();
    let engine = Engine::new(&mut reg);
    let activation = engine.activate(&mut reg).unwrap();
    let mut context = activation.into_context();

    let term = context.new_term_ref();
    let atom = swipl::term::Atom::new("flurps");
    assert!(term.unify(&mut context, &atom));
    assert_eq!(None, term.get::<String>(&context));
    let back = term.get::<swipl::term::Atom>(&context).unwrap();
    assert_eq!("flurps", back.name());
    term.get_atom(&context, |a| assert_eq!("flurps", a.unwrap().name()));
}

#[test]
fn aliased_variables_share_a_binding() {
    let mut reg = Registry::new();
    let engine = Engine::new(&mut reg);
    let activation = engine.activate(&mut reg).unwrap();
    let mut context = activation.into_context();

    let term1 = context.new_term_ref();
    let term2 = context.new_term_ref();
    assert!(term1.unify(&mut context, &term2));
    assert!(term2.unify(&mut context, 7_u64));
    assert_eq!(Some(7), term1.get::<u64>(&context));
}
