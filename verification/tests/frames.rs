//! Frame scopes: save-points, exactly-scoped rewind, commit on close.

use swipl::engine::{Engine, Registry};

#[test]
fn frame_rewind_is_exactly_scoped() {
    let mut reg = Registry::new();
    let engine = Engine::new(&mut reg);
    let activation = engine.activate(&mut reg).unwrap();
    let mut context = activation.into_context();

    let before = context.new_term_ref();
    assert!(before.unify(&mut context, 1_u64));
    context.open_frame();
    let after = context.new_term_ref();
    assert!(after.unify(&mut context, 2_u64));
    context.rewind_frame();

    // The binding made after the marker is fully undone...
    assert_eq!(None, after.get::<u64>(&context));
    // ...and the binding made before the marker is unaffected.
    assert_eq!(Some(1), before.get::<u64>(&context));
    context.close_frame();
    assert_eq!(Some(1), before.get::<u64>(&context));
}

#[test]
fn nested_frames_rewind_to_their_own_marker() {
    let mut reg = Registry::new();
    let engine = Engine::new(&mut reg);
    let activation = engine.activate(&mut reg).unwrap();
    let mut context = activation.into_context();

    let t_outer = context.new_term_ref();
    context.open_frame();
    let t_mid = context.new_term_ref();
    assert!(t_mid.unify(&mut context, 10_u64));
    context.open_frame();
    assert!(t_outer.unify(&mut context, 20_u64));
    // Rewinding the inner frame undoes only the inner bindings.
    context.rewind_frame();
    assert_eq!(None, t_outer.get::<u64>(&context));
    assert_eq!(Some(10), t_mid.get::<u64>(&context));
    context.close_frame();
    // Rewinding the outer frame undoes the rest.
    context.rewind_frame();
    assert_eq!(None, t_mid.get::<u64>(&context));
    context.discard_frame();
    assert_eq!(0, context.depth());
}

#[test]
fn close_frame_commits_bindings() {
    let mut reg = Registry::new();
    let engine = Engine::new(&mut reg);
    let activation = engine.activate(&mut reg).unwrap();
    let mut context = activation.into_context();

    let term = context.new_term_ref();
    context.open_frame();
    assert!(term.unify(&mut context, 99_u64));
    context.close_frame();
    // A committed frame keeps unifications against older terms.
    assert_eq!(Some(99), term.get::<u64>(&context));
}

#[test]
fn deactivate_and_reuse_engine_keeps_state() {
    let mut reg = Registry::new();
    let engine = Engine::new(&mut reg);
    let activation = engine.activate(&mut reg).unwrap();
    let mut context = activation.into_context();
    let term = context.new_term_ref();
    assert!(term.unify(&mut context, 5_u64));

    let engine = context.into_activation().deactivate(&mut reg);
    let activation = engine.activate(&mut reg).unwrap();
    let context = activation.into_context();
    assert_eq!(Some(5), term.get::<u64>(&context));
}
