//! Calling predicates: the query lifecycle.
//!
//! A [`CallablePredicate`] is a resolved predicate whose arity is carried
//! at the type level, so an argument-count mismatch is a compile-time
//! error wherever the value is used generically; wrapping a dynamically
//! resolved [`Predicate`] checks the real arity and reports
//! [`PredicateWrapError::WrongArity`] instead of going wrong later.
//!
//! Opening a query allocates one fresh slot per argument, unifies each
//! with the caller's term — this always succeeds, the slots being fresh —
//! and makes the query the innermost scope. Solutions are then drawn one
//! at a time; the query ends in exactly one of two ways: `cut`, which
//! commits the bindings it produced, or `discard`, which undoes them.

use vstd::prelude::*;
use crate::context::{
    ctx_wf, lemma_scope_inv_after_push_slot, lemma_scope_inv_after_unify_slots,
    lemma_scope_restore, marks_le, scope_inv, scope_kind_ok, scope_slot_ok, top_is_query,
    with_top_query, Context, CtxModel, QueryModel, ScopeKindModel, ScopeModel,
};
use crate::predicate::{
    find_pred, pred_key_matches, BehaviorModel, Module, Predicate, PredicateBehavior,
};
use crate::result::{PrologError, PrologResult};
use crate::store::{
    rewind_model, root_of, store_wf, unify_slots_model, unify_value_model, BindingModel,
    StoreModel,
};
use crate::term::{Datum, Term, TermValue};

verus! {

/// Error for turning a [`Predicate`] into a [`CallablePredicate`].
#[derive(Clone, Copy, Debug, PartialEq, Eq, Structural)]
pub enum PredicateWrapError {
    WrongArity { expected: u16, actual: u16 },
}

/// A predicate which is ready to be called, its arity fixed at the type
/// level.
#[derive(Clone, Copy)]
pub struct CallablePredicate<const N: usize> {
    predicate: usize,
}

impl<const N: usize> CallablePredicate<N> {
    /// The handle of this predicate's table entry.
    pub closed spec fn handle_id(self) -> int {
        self.predicate as int
    }

    /// Wrap a raw predicate without re-checking its arity: the caller
    /// must know that the arity recorded for it is `N`.
    pub fn wrap(predicate: Predicate) -> (r: Self)
        requires
            predicate.arity_of() as int == N as int,
        ensures
            r.handle_id() == predicate.handle_id(),
    {
        CallablePredicate { predicate: predicate.predicate_ptr() }
    }

    /// Wrap a [`Predicate`], checking that its real arity matches the
    /// statically expected one. Exactly the mismatching predicates are
    /// refused, with a `WrongArity` error carrying both arities.
    pub fn new(predicate: Predicate) -> (r: Result<Self, PredicateWrapError>)
        requires
            N <= u16::MAX,
        ensures
            r is Ok <==> predicate.arity_of() as int == N as int,
            r matches Ok(c) ==> c.handle_id() == predicate.handle_id(),
            r matches Err(e) ==> e == (PredicateWrapError::WrongArity {
                expected: N as u16,
                actual: predicate.arity_of(),
            }),
    {
        let arity = predicate.arity();
        if arity as usize != N {
            Err(PredicateWrapError::WrongArity { expected: N as u16, actual: arity })
        } else {
            Ok(CallablePredicate { predicate: predicate.predicate_ptr() })
        }
    }
}

/// The store after appending `n` fresh free slots.
pub open spec fn pushed_free(s: StoreModel, n: int) -> StoreModel
    decreases n,
{
    if n <= 0 {
        s
    } else {
        pushed_free(StoreModel { slots: s.slots.push(BindingModel::Free), ..s }, n - 1)
    }
}

/// Shape of `pushed_free`: `n` free slots appended, all else untouched.
pub proof fn lemma_pushed_free_shape(s: StoreModel, n: int)
    requires
        n >= 0,
    ensures
        pushed_free(s, n).slots.len() == s.slots.len() + n,
        forall|i: int|
            0 <= i < s.slots.len() ==> #[trigger] pushed_free(s, n).slots[i] == s.slots[i],
        forall|i: int|
            s.slots.len() <= i < s.slots.len() + n ==> #[trigger] pushed_free(s, n).slots[i]
                is Free,
        pushed_free(s, n).trail == s.trail,
        pushed_free(s, n).exception == s.exception,
        pushed_free(s, n).preds == s.preds,
    decreases n,
{
    if n > 0 {
        lemma_pushed_free_shape(StoreModel { slots: s.slots.push(BindingModel::Free), ..s }, n - 1);
    }
}

/// Appending one more free slot commutes with `pushed_free`.
pub proof fn lemma_pushed_free_snoc(s: StoreModel, n: int)
    requires
        n >= 0,
    ensures
        pushed_free(s, n + 1) == (StoreModel {
            slots: pushed_free(s, n).slots.push(BindingModel::Free),
            ..pushed_free(s, n)
        }),
    decreases n,
{
    if n > 0 {
        lemma_pushed_free_snoc(StoreModel { slots: s.slots.push(BindingModel::Free), ..s }, n - 1);
    } else {
        assert(pushed_free(s, 1) == pushed_free(
            StoreModel { slots: s.slots.push(BindingModel::Free), ..s },
            0,
        ));
    }
}

/// The store after unifying the argument slots `base + k .. base + len`
/// with the corresponding caller terms, in order.
pub open spec fn open_args_model(s: StoreModel, base: int, args: Seq<Term>, k: int) -> StoreModel
    decreases args.len() - k,
{
    if 0 <= k < args.len() {
        open_args_model(
            unify_slots_model(s, base + k, args[k].slot_id()).0,
            base,
            args,
            k + 1,
        )
    } else {
        s
    }
}

/// The state transition of opening a query: one fresh slot per argument,
/// each unified with the caller's term.
pub open spec fn open_store_model(s: StoreModel, args: Seq<Term>) -> StoreModel {
    open_args_model(pushed_free(s, args.len() as int), s.slots.len() as int, args, 0)
}

/// Opening a query touches only slots and trail: the predicate table and
/// the pending exception come through unchanged.
pub proof fn lemma_open_store_model_shape(s: StoreModel, args: Seq<Term>)
    ensures
        open_store_model(s, args).preds == s.preds,
        open_store_model(s, args).exception == s.exception,
{
    lemma_pushed_free_shape(s, args.len() as int);
    lemma_open_args_shape(pushed_free(s, args.len() as int), s.slots.len() as int, args, 0);
}

proof fn lemma_open_args_shape(s: StoreModel, base: int, args: Seq<Term>, k: int)
    ensures
        open_args_model(s, base, args, k).preds == s.preds,
        open_args_model(s, base, args, k).exception == s.exception,
    decreases args.len() - k,
{
    if 0 <= k < args.len() {
        lemma_open_args_shape(
            unify_slots_model(s, base + k, args[k].slot_id()).0,
            base,
            args,
            k + 1,
        );
    }
}

/// The scope pushed by opening a query on predicate handle `pred`.
pub open spec fn open_scope_model(s: StoreModel, pred: int) -> ScopeModel {
    ScopeModel {
        kind: ScopeKindModel::Query(
            QueryModel { pred, args_start: s.slots.len() as int, produced: 0, done: false },
        ),
        tm: s.trail.len() as int,
        sm: s.slots.len() as int,
        snap: s,
    }
}

impl<const N: usize> CallablePredicate<N> {
    /// Invoke this predicate on the given arguments: the query becomes
    /// the innermost scope of the context.
    ///
    /// Not permitted while another query is the innermost scope (open a
    /// nested frame first), nor while an exception is pending. The module
    /// is the namespace the engine would resolve the goal's own calls in;
    /// the modeled behaviors do not depend on it.
    pub fn open(self, context: &mut Context, module: Option<Module>, args: [Term; N]) -> (r: ())
        requires
            old(context).wf(),
            !top_is_query(old(context)@),
            old(context)@.store.exception is None,
            0 <= self.handle_id() < old(context)@.store.preds.len(),
            old(context)@.store.preds[self.handle_id()].arity as int == N as int,
            forall|k: int|
                0 <= k < N as int ==> (#[trigger] args@[k]).engine_of() == old(context)@.engine,
            forall|k: int|
                0 <= k < N as int ==> (#[trigger] args@[k]).slot_id() < old(
                    context,
                )@.store.slots.len(),
        ensures
            final(context).wf(),
            final(context)@.engine == old(context)@.engine,
            final(context)@.store == open_store_model(old(context)@.store, args@),
            final(context)@.scopes == old(context)@.scopes.push(
                open_scope_model(old(context)@.store, self.handle_id()),
            ),
            top_is_query(final(context)@),
    {
        let ghost pre = context@;
        proof {
            context.lemma_view_parts();
        }
        let base = context.store.slot_count();
        let tm = context.store.trail_mark();
        let ghost snap = context.store@;
        proof {
            let fr = frame_scope_model(pre.store);
            assert(pre.store.trail.take(fr.tm) =~= pre.store.trail);
            assert forall|i: int| 0 <= i < fr.sm implies #[trigger] scope_slot_ok(
                pre.store,
                fr,
                i,
            ) by {}
            assert(scope_inv(pre.store, fr));
        }
        let mut k: usize = 0;
        while k < N
            invariant
                ctx_wf(pre),
                k <= N,
                base == pre.store.slots.len(),
                tm == pre.store.trail.len(),
                context@.engine == pre.engine,
                context@.scopes == pre.scopes,
                context@.store == pushed_free(pre.store, k as int),
                store_wf(context@.store),
                forall|j: int|
                    0 <= j < pre.scopes.len() ==> #[trigger] scope_inv(
                        context@.store,
                        pre.scopes[j],
                    ),
                scope_inv(context@.store, frame_scope_model(pre.store)),
            decreases N - k,
        {
            let ghost before = context@.store;
            proof {
                context.lemma_view_parts();
            }
            context.store.fresh_slot();
            k = k + 1;
            proof {
                context.lemma_view_parts();
                lemma_pushed_free_snoc(pre.store, k as int - 1);
                assert(context@.scopes =~= pre.scopes);
                assert forall|j: int|
                    0 <= j < pre.scopes.len() implies #[trigger] scope_inv(
                    context@.store,
                    pre.scopes[j],
                ) by {
                    lemma_scope_inv_after_push_slot(before, pre.scopes[j]);
                }
                lemma_scope_inv_after_push_slot(before, frame_scope_model(pre.store));
            }
        }
        proof {
            lemma_pushed_free_shape(pre.store, N as int);
        }
        let total = context.store.slot_count();
        let ghost s_alloc = context@.store;
        proof {
            context.lemma_view_parts();
        }
        let mut k2: usize = 0;
        while k2 < N
            invariant
                ctx_wf(pre),
                k2 <= N,
                base == pre.store.slots.len(),
                tm == pre.store.trail.len(),
                total as int == base as int + N as int,
                forall|m: int|
                    0 <= m < N as int ==> (#[trigger] args@[m]).slot_id() < base as int,
                context@.engine == pre.engine,
                context@.scopes == pre.scopes,
                store_wf(context@.store),
                context@.store.slots.len() == base + N,
                context@.store.trail.len() >= tm,
                context@.store.preds == pre.store.preds,
                context@.store.exception == pre.store.exception,
                open_args_model(s_alloc, base as int, args@, 0) == open_args_model(
                    context@.store,
                    base as int,
                    args@,
                    k2 as int,
                ),
                forall|m: int|
                    k2 as int <= m < N as int ==> #[trigger] context@.store.slots[base + m]
                        is Free,
                forall|j: int|
                    0 <= j < pre.scopes.len() ==> #[trigger] scope_inv(
                        context@.store,
                        pre.scopes[j],
                    ),
                scope_inv(context@.store, frame_scope_model(pre.store)),
            decreases N - k2,
        {
            proof {
                assert(base + k2 < total);
            }
            let ghost before = context@.store;
            let a = args[k2];
            let aslot = a.term_ptr();
            proof {
                context.lemma_view_parts();
                assert(args@[k2 as int].slot_id() < base as int);
                assert(aslot < base);
            }
            let ok = context.store.unify_slots(base + k2, aslot);
            proof {
                context.lemma_view_parts();
                assert(context@.scopes =~= pre.scopes);
                let bi = (base + k2) as int;
                let aj = a.slot_id();
                crate::store::lemma_root_of(before.slots, bi);
                crate::store::lemma_root_of(before.slots, aj);
                assert(before.slots[bi] is Free);
                assert(root_of(before.slots, bi) == bi);
                let rj = root_of(before.slots, aj);
                assert(rj <= aj < bi);
                assert(!(before.slots[rj] is Link));
                assert(ok);
                assert(context@.store == unify_slots_model(before, bi, aj).0);
                assert(open_args_model(before, base as int, args@, k2 as int)
                    == open_args_model(context@.store, base as int, args@, k2 as int + 1));
                assert forall|m: int|
                    k2 as int + 1 <= m < N as int implies #[trigger] context@.store.slots[base + m]
                    is Free by {
                    match before.slots[rj] {
                        BindingModel::Free => {
                            if rj < bi {
                                assert(context@.store.slots[base + m] == before.slots[base + m]);
                            }
                        },
                        _ => {
                            assert(context@.store.slots[base + m] == before.slots[base + m]);
                        },
                    }
                }
                assert forall|j: int|
                    0 <= j < pre.scopes.len() implies #[trigger] scope_inv(
                    context@.store,
                    pre.scopes[j],
                ) by {
                    lemma_scope_inv_after_unify_slots(before, pre.scopes[j], bi, aj);
                }
                lemma_scope_inv_after_unify_slots(before, frame_scope_model(pre.store), bi, aj);
            }
            k2 = k2 + 1;
        }
        context.push_query_scope(self.predicate, base, tm, base, Ghost(snap));
        proof {
            context.lemma_view_parts();
            let scm = open_scope_model(pre.store, self.handle_id());
            assert(snap == pre.store);
            assert(context@.scopes =~= pre.scopes.push(scm));
            assert(open_args_model(context@.store, base as int, args@, N as int)
                == context@.store);
            assert(context@.store == open_store_model(pre.store, args@));
            let cur = context@.store;
            let fr = frame_scope_model(pre.store);
            assert(scope_inv(cur, fr));
            assert forall|i: int| 0 <= i < scm.sm implies #[trigger] scope_slot_ok(
                cur,
                scm,
                i,
            ) by {
                assert(scope_slot_ok(cur, fr, i));
            }
            assert(scope_kind_ok(cur, scm));
            assert(scope_inv(cur, scm));
            assert forall|k: int|
                0 <= k < context@.scopes.len() implies #[trigger] scope_inv(
                context@.store,
                context@.scopes[k],
            ) by {
                if k < context@.scopes.len() - 1 {
                    assert(context@.scopes[k] == pre.scopes[k]);
                } else {
                    assert(context@.scopes[k] == scm);
                }
            }
            assert forall|k1: int, k2: int|
                0 <= k1 <= k2 < context@.scopes.len() implies #[trigger] marks_le(
                context@.scopes[k1],
                context@.scopes[k2],
            ) by {
                if k2 < context@.scopes.len() - 1 {
                    assert(marks_le(pre.scopes[k1], pre.scopes[k2]));
                } else if k1 < context@.scopes.len() - 1 {
                    assert(scope_inv(pre.store, pre.scopes[k1]));
                }
            }
        }
    }
}

/// A frame-shaped stand-in for a scope opened at the current state; used
/// while the scope being opened has no query payload in place yet.
pub open spec fn frame_scope_model(s: StoreModel) -> ScopeModel {
    ScopeModel {
        kind: ScopeKindModel::Frame,
        tm: s.trail.len() as int,
        sm: s.slots.len() as int,
        snap: s,
    }
}

/// The context with its store replaced.
pub open spec fn with_store(c: CtxModel, s: StoreModel) -> CtxModel {
    CtxModel { store: s, ..c }
}

/// The state transition of asking the innermost query for its next
/// solution, together with the surfaced tri-state result:
/// - a finished query fails logically;
/// - an undefined predicate raises an existence exception carrying its
///   name, which becomes the sticky pending exception;
/// - otherwise the registered behavior decides: one more solution
///   (possibly the last), logical failure, or an exception that becomes
///   pending. A behavior that unifies the first argument does so against
///   the argument slot allocated at open, succeeding or failing exactly
///   as that unification does.
pub open spec fn next_solution_model(c: CtxModel) -> (CtxModel, PrologResult<bool>)
    recommends
        top_is_query(c),
{
    let q = c.scopes.last().kind->Query_0;
    if q.done {
        (c, Err(PrologError::Failure))
    } else {
        let entry = c.store.preds[q.pred];
        match entry.behavior {
            None => (
                with_top_query(
                    with_store(
                        c,
                        StoreModel { exception: Some(Datum::Atom(entry.name)), ..c.store },
                    ),
                    QueryModel { done: true, ..q },
                ),
                Err(PrologError::Exception),
            ),
            Some(b) => match b {
                BehaviorModel::Succeed => (
                    with_top_query(c, QueryModel { done: true, ..q }),
                    Ok(false),
                ),
                BehaviorModel::SucceedTimes(n) => if q.produced < n {
                    (
                        with_top_query(c, QueryModel { produced: q.produced + 1, ..q }),
                        Ok(true),
                    )
                } else {
                    (
                        with_top_query(c, QueryModel { done: true, ..q }),
                        Err(PrologError::Failure),
                    )
                },
                BehaviorModel::Fail => (
                    with_top_query(c, QueryModel { done: true, ..q }),
                    Err(PrologError::Failure),
                ),
                BehaviorModel::UnifyArg(d) => if unify_value_model(c.store, q.args_start, d).1 {
                    (
                        with_top_query(
                            with_store(c, unify_value_model(c.store, q.args_start, d).0),
                            QueryModel { done: true, ..q },
                        ),
                        Ok(false),
                    )
                } else {
                    (
                        with_top_query(c, QueryModel { done: true, ..q }),
                        Err(PrologError::Failure),
                    )
                },
                BehaviorModel::Raise(d) => (
                    with_top_query(
                        with_store(c, StoreModel { exception: Some(d), ..c.store }),
                        QueryModel { done: true, ..q },
                    ),
                    Err(PrologError::Exception),
                ),
            },
        }
    }
}

/// The state transition of cutting the innermost query: the scope is
/// retired and every binding it produced — including those on the
/// caller's terms — remains.
pub open spec fn cut_model(c: CtxModel) -> CtxModel {
    CtxModel { scopes: c.scopes.drop_last(), ..c }
}

/// The state transition of discarding the innermost query: the trail is
/// rewound to the query's save-point, undoing every binding it produced,
/// and the scope is retired.
pub open spec fn discard_model(c: CtxModel) -> CtxModel {
    CtxModel {
        store: rewind_model(c.store, c.scopes.last().tm),
        scopes: c.scopes.drop_last(),
        ..c
    }
}

/// The state transition of `once`: one solution, then cut; a failure or
/// exception is surfaced with the query discarded instead of cut.
pub open spec fn once_model(c: CtxModel) -> (CtxModel, PrologResult<()>) {
    let step = next_solution_model(c);
    match step.1 {
        Ok(_) => (cut_model(step.0), Ok(())),
        Err(e) => (discard_model(step.0), Err(e)),
    }
}

/// The state transition of `ignore`: like `once`, but a logical failure
/// counts as success-with-no-effect; only an exception propagates.
pub open spec fn ignore_model(c: CtxModel) -> (CtxModel, PrologResult<()>) {
    let step = next_solution_model(c);
    if step.1 == Err::<bool, PrologError>(PrologError::Exception) {
        (discard_model(step.0), Err(PrologError::Exception))
    } else {
        (cut_model(step.0), Ok(()))
    }
}

impl Context {
    /// Retrieve the next solution of the innermost query.
    ///
    /// `Ok(true)` means more solutions may exist; `Ok(false)` means this
    /// was the last one. `Err(Failure)` reports that no (further)
    /// solution exists — ordinary control flow, not an error.
    /// `Err(Exception)` reports an engine-level error; the raised value
    /// stays pending until it is cleared.
    pub fn next_solution(&mut self) -> (r: PrologResult<bool>)
        requires
            old(self).wf(),
            top_is_query(old(self)@),
        ensures
            final(self).wf(),
            top_is_query(final(self)@),
            final(self)@ == next_solution_model(old(self)@).0,
            r == next_solution_model(old(self)@).1,
    {
        let (pred, args_start, produced, done) = self.top_query_state();
        proof {
            let last = self@.scopes.len() - 1;
            assert(self@.scopes[last] == self@.scopes.last());
            assert(scope_inv(self@.store, self@.scopes.last()));
            self.lemma_view_parts();
        }
        if done {
            return Err(PrologError::Failure);
        }
        let beh = self.store.pred_behavior(pred);
        match beh {
            None => {
                let name = self.store.pred_name(pred);
                self.store.set_exception(TermValue::Atom(name));
                proof {
                    self.lemma_view_parts();
                    assert(self@.scopes =~= old(self)@.scopes);
                    self.lemma_wf_after_exception(old(self)@);
                }
                self.set_top_query_state(produced, true);
                proof {
                    assert(self@ =~= next_solution_model(old(self)@).0);
                }
                Err(PrologError::Exception)
            },
            Some(PredicateBehavior::Succeed) => {
                self.set_top_query_state(produced, true);
                proof {
                    assert(self@ =~= next_solution_model(old(self)@).0);
                }
                Ok(false)
            },
            Some(PredicateBehavior::SucceedTimes(n)) => {
                if produced < n {
                    self.set_top_query_state(produced + 1, false);
                    proof {
                        assert(self@ =~= next_solution_model(old(self)@).0);
                    }
                    Ok(true)
                } else {
                    self.set_top_query_state(produced, true);
                    proof {
                        assert(self@ =~= next_solution_model(old(self)@).0);
                    }
                    Err(PrologError::Failure)
                }
            },
            Some(PredicateBehavior::Fail) => {
                self.set_top_query_state(produced, true);
                proof {
                    assert(self@ =~= next_solution_model(old(self)@).0);
                }
                Err(PrologError::Failure)
            },
            Some(PredicateBehavior::UnifyArg(v)) => {
                proof {
                    assert(crate::store::preds_wf(self@.store.preds));
                    assert(self@.store.preds[pred as int].arity >= 1);
                }
                let ok = self.unify_slot_value(args_start, &v);
                self.set_top_query_state(produced, true);
                proof {
                    assert(self@ =~= next_solution_model(old(self)@).0);
                }
                if ok {
                    Ok(false)
                } else {
                    Err(PrologError::Failure)
                }
            },
            Some(PredicateBehavior::Raise(v)) => {
                self.store.set_exception(v);
                proof {
                    self.lemma_view_parts();
                    assert(self@.scopes =~= old(self)@.scopes);
                    self.lemma_wf_after_exception(old(self)@);
                }
                self.set_top_query_state(produced, true);
                proof {
                    assert(self@ =~= next_solution_model(old(self)@).0);
                }
                Err(PrologError::Exception)
            },
        }
    }

    /// After replacing only the pending exception, well-formedness holds.
    proof fn lemma_wf_after_exception(&self, pre: CtxModel)
        requires
            ctx_wf(pre),
            self@.engine == pre.engine,
            self@.scopes == pre.scopes,
            self@.store.slots == pre.store.slots,
            self@.store.trail == pre.store.trail,
            self@.store.preds == pre.store.preds,
        ensures
            ctx_wf(self@),
    {
        assert forall|k: int|
            0 <= k < self@.scopes.len() implies #[trigger] scope_inv(
            self@.store,
            self@.scopes[k],
        ) by {
            assert(scope_inv(pre.store, pre.scopes[k]));
            crate::context::lemma_scope_inv_after_exception(
                pre.store,
                pre.scopes[k],
                self@.store.exception,
            );
            assert(StoreModel { exception: self@.store.exception, ..pre.store } =~= self@.store);
        }
    }

    /// Cut the innermost query: commit the bindings it produced, release
    /// its choice points, and retire it. Every unification it performed —
    /// also on terms of parent scopes — is retained: the engine state is
    /// untouched.
    pub fn cut(&mut self) -> (r: ())
        requires
            old(self).wf(),
            top_is_query(old(self)@),
        ensures
            final(self).wf(),
            final(self)@ == cut_model(old(self)@),
            final(self)@.store == old(self)@.store,
    {
        self.pop_scope();
        proof {
            self.lemma_wf_after_pop(old(self)@);
            assert(self@ =~= cut_model(old(self)@));
        }
    }

    /// Discard the innermost query: undo every binding it produced and
    /// retire it. Afterwards the caller's terms are indistinguishable
    /// from before the query opened: the trail and every slot that
    /// existed then read exactly as in the state the query opened with,
    /// and the argument slots the query allocated are free again. Only a
    /// pending exception, being sticky, survives. This is also what
    /// dropping a still-open query does.
    pub fn discard(&mut self) -> (r: ())
        requires
            old(self).wf(),
            top_is_query(old(self)@),
        ensures
            final(self).wf(),
            final(self)@ == discard_model(old(self)@),
            final(self)@.store.trail == old(self)@.scopes.last().snap.trail,
            forall|i: int|
                0 <= i < old(self)@.scopes.last().sm ==> #[trigger] final(self)@.store.slots[i]
                    == old(self)@.scopes.last().snap.slots[i],
            forall|i: int|
                old(self)@.scopes.last().sm <= i < old(self)@.store.slots.len()
                    ==> #[trigger] final(self)@.store.slots[i] is Free,
            final(self)@.store.exception == old(self)@.store.exception,
            final(self)@.store.preds == old(self)@.store.preds,
            final(self)@.scopes == old(self)@.scopes.drop_last(),
    {
        let (tm, _) = self.top_scope_marks();
        proof {
            let last = self@.scopes.len() - 1;
            assert(self@.scopes[last] == self@.scopes.last());
            assert(scope_inv(self@.store, self@.scopes.last()));
            self.lemma_view_parts();
        }
        self.store.rewind_to(tm);
        proof {
            self.lemma_view_parts();
            assert(self@.scopes =~= old(self)@.scopes);
            lemma_scope_restore(old(self)@.store, old(self)@.scopes.last());
            assert forall|k: int|
                0 <= k < self@.scopes.len() implies #[trigger] scope_inv(
                self@.store,
                self@.scopes[k],
            ) by {
                assert(marks_le(old(self)@.scopes[k], old(self)@.scopes.last()));
                crate::context::lemma_scope_inv_after_rewind(
                    old(self)@.store,
                    old(self)@.scopes[k],
                    tm as int,
                );
            }
        }
        let ghost mid = self@;
        self.pop_scope();
        proof {
            self.lemma_wf_after_pop(mid);
            assert(self@ =~= discard_model(old(self)@));
        }
    }

    /// Retrieve one solution, then cut.
    ///
    /// On success the bindings of that first solution are committed. A
    /// logical failure or an exception is surfaced as-is; the query is
    /// then discarded, not cut, so no binding of it survives.
    pub fn once(&mut self) -> (r: PrologResult<()>)
        requires
            old(self).wf(),
            top_is_query(old(self)@),
        ensures
            final(self).wf(),
            final(self)@ == once_model(old(self)@).0,
            r == once_model(old(self)@).1,
    {
        match self.next_solution() {
            Ok(_) => {
                self.cut();
                Ok(())
            },
            Err(e) => {
                self.discard();
                Err(e)
            },
        }
    }

    /// Retrieve one solution, ignoring a logical failure, then cut.
    ///
    /// Both a solution and a logical failure surface as `Ok(())`; only an
    /// exception propagates, with the query discarded.
    pub fn ignore(&mut self) -> (r: PrologResult<()>)
        requires
            old(self).wf(),
            top_is_query(old(self)@),
        ensures
            final(self).wf(),
            final(self)@ == ignore_model(old(self)@).0,
            r == ignore_model(old(self)@).1,
    {
        match self.next_solution() {
            Err(PrologError::Exception) => {
                self.discard();
                Err(PrologError::Exception)
            },
            _ => {
                self.cut();
                Ok(())
            },
        }
    }
}

/// Trait for things that can be called as if they were predicates.
///
/// A resolved [`CallablePredicate`] is the canonical implementation; the
/// trait is what lets calling code invoke any such value generically,
/// with the arity checked at compile time through the const parameter.
/// An implementor names, as `callee`, the predicate handle a call runs,
/// and states in `open_req` what it asks of the context beyond the open
/// protocol itself.
pub trait Callable<const N: usize>: Sized {
    /// What this callable asks of the context before opening.
    spec fn open_req(self, c: CtxModel) -> bool;

    /// The handle of the predicate a call runs.
    spec fn callee(self, c: CtxModel) -> int;

    /// Invoke the predicate on the given arguments: the query becomes
    /// the innermost scope of the context.
    fn open(self, context: &mut Context, module: Option<Module>, args: [Term; N]) -> (r: ())
        requires
            old(context).wf(),
            !top_is_query(old(context)@),
            old(context)@.store.exception is None,
            self.open_req(old(context)@),
            forall|k: int|
                0 <= k < N as int ==> (#[trigger] args@[k]).engine_of() == old(context)@.engine,
            forall|k: int|
                0 <= k < N as int ==> (#[trigger] args@[k]).slot_id() < old(
                    context,
                )@.store.slots.len(),
        ensures
            final(context).wf(),
            final(context)@.engine == old(context)@.engine,
            final(context)@.store == open_store_model(old(context)@.store, args@),
            final(context)@.scopes == old(context)@.scopes.push(
                open_scope_model(old(context)@.store, self.callee(old(context)@)),
            ),
            top_is_query(final(context)@),
    ;
}

impl<const N: usize> Callable<N> for CallablePredicate<N> {
    open spec fn open_req(self, c: CtxModel) -> bool {
        0 <= self.handle_id() < c.store.preds.len() && c.store.preds[self.handle_id()].arity
            as int == N as int
    }

    open spec fn callee(self, c: CtxModel) -> int {
        self.handle_id()
    }

    fn open(self, context: &mut Context, module: Option<Module>, args: [Term; N]) -> (r: ()) {
        self.open(context, module, args)
    }
}

/// Looks a predicate up on the first call to `as_callable` and keeps the
/// resolved handle cached afterwards.
///
/// Caching is sound because resolution is idempotent (see
/// [`crate::predicate::lemma_intern_idempotent`]): every resolution of
/// the same (module, name, arity) yields the same handle, so redundant
/// resolutions — racy ones included — store the same value, and the
/// underlying lookup runs at most once per cache cell.
pub struct LazyCallablePredicate<const N: usize> {
    module: Option<String>,
    name: String,
    predicate: Option<usize>,
}

/// The store with a triple freshly resolved; what a lazy predicate's
/// first use turns the store into before the query opens.
pub open spec fn resolved_store(
    s: StoreModel,
    module: Seq<char>,
    name: Seq<char>,
    arity: u16,
) -> StoreModel {
    StoreModel { preds: crate::predicate::intern_model(s.preds, module, name, arity).0, ..s }
}

impl<const N: usize> LazyCallablePredicate<N> {
    /// The module name this cell resolves in; an absent module reads as
    /// the empty name.
    pub closed spec fn key_module(&self) -> Seq<char> {
        match self.module {
            Some(m) => m@,
            None => Seq::empty(),
        }
    }

    /// The predicate name this cell resolves.
    pub closed spec fn key_name(&self) -> Seq<char> {
        self.name@
    }

    /// The cached handle, once the first resolution has stored it.
    pub closed spec fn cached_handle(&self) -> Option<int> {
        match self.predicate {
            Some(h) => Some(h as int),
            None => None,
        }
    }

    /// The cache is faithful to a store: a cached handle is the handle
    /// the store resolves this cell's triple to.
    pub open spec fn cache_ok(&self, s: StoreModel) -> bool {
        self.cached_handle() matches Some(h) ==> {
            &&& 0 <= h < s.preds.len()
            &&& pred_key_matches(s.preds[h], self.key_module(), self.key_name(), N as u16)
            &&& h == find_pred(s.preds, self.key_module(), self.key_name(), N as u16)
        }
    }

    /// Create an unresolved cell for (module, name) with the type-level
    /// arity.
    pub fn new(module: Option<&str>, name: &str) -> (r: Self)
        ensures
            r.key_module() == match module {
                Some(m) => m@,
                None => Seq::<char>::empty(),
            },
            r.key_name() == name@,
            r.cached_handle() is None,
            forall|s: StoreModel| #[trigger] r.cache_ok(s),
    {
        let m = match module {
            Some(s) => Some(String::from_str(s)),
            None => None,
        };
        LazyCallablePredicate { module: m, name: String::from_str(name), predicate: None }
    }

    /// The callable predicate behind this cell.
    ///
    /// The first call resolves the triple — interning it if need be — and
    /// stores the handle; later calls return the cached handle and leave
    /// the engine untouched. Either way the result is the handle the
    /// store resolves the triple to.
    pub fn as_callable(&mut self, context: &mut Context) -> (r: CallablePredicate<N>)
        requires
            N <= u16::MAX,
            old(self).cache_ok(old(context)@.store),
            old(context).wf(),
        ensures
            final(context).wf(),
            final(self).key_module() == old(self).key_module(),
            final(self).key_name() == old(self).key_name(),
            final(self).cached_handle() == Some(r.handle_id()),
            final(self).cache_ok(final(context)@.store),
            r.handle_id() == find_pred(
                final(context)@.store.preds,
                old(self).key_module(),
                old(self).key_name(),
                N as u16,
            ),
            0 <= r.handle_id() < final(context)@.store.preds.len(),
            pred_key_matches(
                final(context)@.store.preds[r.handle_id()],
                old(self).key_module(),
                old(self).key_name(),
                N as u16,
            ),
            final(context)@.engine == old(context)@.engine,
            final(context)@.scopes == old(context)@.scopes,
            final(context)@.store == resolved_store(
                old(context)@.store,
                old(self).key_module(),
                old(self).key_name(),
                N as u16,
            ),
            r.handle_id() == crate::predicate::intern_model(
                old(context)@.store.preds,
                old(self).key_module(),
                old(self).key_name(),
                N as u16,
            ).1,
            forall|k: int|
                0 <= k < old(context)@.store.preds.len()
                    ==> #[trigger] final(context)@.store.preds[k] == old(context)@.store.preds[k],
            old(self).cached_handle() is Some ==> final(context)@ == old(context)@,
    {
        match self.predicate {
            Some(h) => {
                proof {
                    assert(old(context)@.store =~= resolved_store(
                        old(context)@.store,
                        old(self).key_module(),
                        old(self).key_name(),
                        N as u16,
                    ));
                }
                let p = Predicate::make(h, N as u16);
                CallablePredicate::wrap(p)
            },
            None => {
                let mstr: &str = match &self.module {
                    Some(m) => m.as_str(),
                    None => "",
                };
                proof {
                    reveal_strlit("");
                    assert(""@ =~= Seq::<char>::empty());
                    assert(mstr@ == old(self).key_module());
                }
                let p = context.resolve_predicate(mstr, self.name.as_str(), N as u16);
                self.predicate = Some(p.predicate_ptr());
                proof {
                    let km = old(self).key_module();
                    let kn = old(self).key_name();
                    crate::predicate::lemma_find_pred_properties(
                        old(context)@.store.preds,
                        km,
                        kn,
                        N as u16,
                    );
                    if find_pred(old(context)@.store.preds, km, kn, N as u16) >= 0 {
                        assert(context@.store =~= resolved_store(
                            old(context)@.store,
                            km,
                            kn,
                            N as u16,
                        ));
                    } else {
                        assert(context@.store =~= resolved_store(
                            old(context)@.store,
                            km,
                            kn,
                            N as u16,
                        ));
                    }
                }
                CallablePredicate::wrap(p)
            },
        }
    }

    /// Resolve (caching the handle) and open the query in one step.
    pub fn open(&mut self, context: &mut Context, module: Option<Module>, args: [Term; N]) -> (r:
        ())
        requires
            N <= u16::MAX,
            old(self).cache_ok(old(context)@.store),
            old(context).wf(),
            !top_is_query(old(context)@),
            old(context)@.store.exception is None,
            forall|k: int|
                0 <= k < N as int ==> (#[trigger] args@[k]).engine_of() == old(context)@.engine,
            forall|k: int|
                0 <= k < N as int ==> (#[trigger] args@[k]).slot_id() < old(
                    context,
                )@.store.slots.len(),
        ensures
            final(context).wf(),
            top_is_query(final(context)@),
            final(context)@.engine == old(context)@.engine,
            final(self).cache_ok(final(context)@.store),
            final(context)@.store == open_store_model(
                resolved_store(
                    old(context)@.store,
                    old(self).key_module(),
                    old(self).key_name(),
                    N as u16,
                ),
                args@,
            ),
            final(context)@.scopes == old(context)@.scopes.push(
                open_scope_model(
                    resolved_store(
                        old(context)@.store,
                        old(self).key_module(),
                        old(self).key_name(),
                        N as u16,
                    ),
                    crate::predicate::intern_model(
                        old(context)@.store.preds,
                        old(self).key_module(),
                        old(self).key_name(),
                        N as u16,
                    ).1,
                ),
            ),
    {
        let ghost mid_expected = resolved_store(
            old(context)@.store,
            old(self).key_module(),
            old(self).key_name(),
            N as u16,
        );
        let cp = self.as_callable(context);
        proof {
            assert(context@.store == mid_expected);
        }
        cp.open(context, module, args);
        proof {
            lemma_open_store_model_shape(mid_expected, args@);
            assert(final(self).cache_ok(context@.store)) by {
                assert(context@.store.preds == mid_expected.preds);
            }
        }
    }
}

/// `once` equals `next_solution` followed by `cut`: on success the two
/// compositions agree exactly. A failure or exception is surfaced
/// unchanged and without cutting — the query is discarded instead, as
/// dropping it would.
pub proof fn lemma_once_is_next_solution_then_cut(c: CtxModel)
    ensures
        next_solution_model(c).1 matches Ok(more) ==> once_model(c) == (
            cut_model(next_solution_model(c).0),
            Ok::<(), PrologError>(()),
        ),
        next_solution_model(c).1 matches Err(e) ==> once_model(c).1 == Err::<(), PrologError>(e)
            && once_model(c).0 == discard_model(next_solution_model(c).0),
{
}

/// `ignore` surfaces `Ok(())` for both a solution and a logical failure,
/// cutting the query either way; an exception propagates unchanged, with
/// the query discarded.
pub proof fn lemma_ignore_swallows_failure(c: CtxModel)
    ensures
        next_solution_model(c).1 is Ok || next_solution_model(c).1 == Err::<bool, PrologError>(
            PrologError::Failure,
        ) ==> ignore_model(c) == (
            cut_model(next_solution_model(c).0),
            Ok::<(), PrologError>(()),
        ),
        next_solution_model(c).1 == Err::<bool, PrologError>(PrologError::Exception)
            ==> ignore_model(c) == (
            discard_model(next_solution_model(c).0),
            Err::<(), PrologError>(PrologError::Exception),
        ),
{
}

} // verus!
