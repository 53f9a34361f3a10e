//! The context: the single capability through which engine state is touched.
//!
//! A context owns the whole engine state of its activation, so holding
//! `&mut Context` *is* the proof of being the innermost live capability:
//! Rust's ownership discipline replaces the engine's dynamic "is this
//! context still the active one" assertion, and a parent scope cannot be
//! used again before its child scope has been retired.
//!
//! Scopes nest strictly. Opening a frame records a save-point (a trail mark
//! and a slot mark together with a snapshot of the state); rewinding a
//! frame undoes exactly the bindings made since its save-point and nothing
//! else; closing a frame commits them. An open query is a scope as well:
//! while it is the innermost scope, no fresh terms may be created and no
//! further query may be opened directly — a nested frame must be opened
//! first, exactly as the underlying engine demands.

use vstd::prelude::*;
use crate::predicate::{
    find_pred, lemma_find_pred_keys_only, pred_key_matches, Predicate, PredicateBehavior,
    PredModel,
};
use crate::store::{
    record_binding, rewind_model, store_wf, trailed_at_or_after, unify_slots_model,
    unify_value_model, BindingModel, Store, StoreModel,
};
use crate::term::{Datum, Term, TermValue};

verus! {

/// The mathematical content of one open query.
pub struct QueryModel {
    /// Handle of the called predicate in the engine's table.
    pub pred: int,
    /// First of the argument slots allocated when the query opened.
    pub args_start: int,
    /// How many solutions the query has produced so far.
    pub produced: int,
    /// Whether the query can produce no further solution.
    pub done: bool,
}

/// The mathematical content of a scope's kind.
pub enum ScopeKindModel {
    Frame,
    Query(QueryModel),
}

/// The mathematical content of one open scope: its kind, its save-point
/// marks, and the snapshot of the engine state at the moment it opened.
pub struct ScopeModel {
    pub kind: ScopeKindModel,
    pub tm: int,
    pub sm: int,
    pub snap: StoreModel,
}

/// An open query scope: one predicate invocation in progress.
pub struct OpenQuery {
    pub(crate) pred: usize,
    pub(crate) args_start: usize,
    pub(crate) produced: u64,
    pub(crate) done: bool,
}

impl View for OpenQuery {
    type V = QueryModel;

    closed spec fn view(&self) -> QueryModel {
        QueryModel {
            pred: self.pred as int,
            args_start: self.args_start as int,
            produced: self.produced as int,
            done: self.done,
        }
    }
}

/// The kind of an open scope.
pub(crate) enum ScopeKind {
    Frame,
    Query(OpenQuery),
}

impl View for ScopeKind {
    type V = ScopeKindModel;

    closed spec fn view(&self) -> ScopeKindModel {
        match self {
            ScopeKind::Frame => ScopeKindModel::Frame,
            ScopeKind::Query(q) => ScopeKindModel::Query(q@),
        }
    }
}

/// One open scope: kind, save-point marks, snapshot at open.
pub(crate) struct Scope {
    pub(crate) kind: ScopeKind,
    pub(crate) trail_mark: usize,
    pub(crate) slot_mark: usize,
    pub(crate) snap: Ghost<StoreModel>,
}

impl View for Scope {
    type V = ScopeModel;

    closed spec fn view(&self) -> ScopeModel {
        ScopeModel {
            kind: self.kind@,
            tm: self.trail_mark as int,
            sm: self.slot_mark as int,
            snap: self.snap@,
        }
    }
}

/// The mathematical content of a context: the engine state, the stack of
/// open scopes, and the identity of the engine it governs.
#[verifier::ext_equal]
pub struct CtxModel {
    pub engine: u64,
    pub store: StoreModel,
    pub scopes: Seq<ScopeModel>,
}

/// Per-slot part of a scope's invariant: a slot that existed when the
/// scope opened either still holds what the snapshot holds, or was free
/// then and has been bound since the scope's trail mark.
pub open spec fn scope_slot_ok(cur: StoreModel, sc: ScopeModel, i: int) -> bool {
    cur.slots[i] == sc.snap.slots[i] || (sc.snap.slots[i] is Free && trailed_at_or_after(
        cur.trail,
        sc.tm,
        i,
    ))
}

/// What a scope of query kind additionally guarantees: the called
/// predicate exists, and the argument block allocated at open starts at
/// the slot mark and lies within the store.
pub open spec fn scope_kind_ok(cur: StoreModel, sc: ScopeModel) -> bool {
    match sc.kind {
        ScopeKindModel::Frame => true,
        ScopeKindModel::Query(q) => {
            &&& 0 <= q.pred < cur.preds.len()
            &&& q.args_start == sc.sm
            &&& sc.sm + cur.preds[q.pred].arity <= cur.slots.len()
        },
    }
}

/// The invariant tying an open scope to the current engine state: the
/// snapshot is a well-formed state taken exactly at the scope's marks, the
/// trail up to the mark still reads as it did then, and every older slot
/// either is unchanged or was bound — trailed — since the mark.
pub open spec fn scope_inv(cur: StoreModel, sc: ScopeModel) -> bool {
    &&& store_wf(sc.snap)
    &&& sc.tm == sc.snap.trail.len()
    &&& sc.sm == sc.snap.slots.len()
    &&& sc.tm <= cur.trail.len()
    &&& sc.sm <= cur.slots.len()
    &&& cur.trail.take(sc.tm) == sc.snap.trail
    &&& forall|i: int| 0 <= i < sc.sm ==> #[trigger] scope_slot_ok(cur, sc, i)
    &&& scope_kind_ok(cur, sc)
}

/// Marks grow towards the inner scopes.
pub open spec fn marks_le(a: ScopeModel, b: ScopeModel) -> bool {
    a.tm <= b.tm && a.sm <= b.sm
}

/// Well-formedness of a context: a well-formed engine state and a strictly
/// nested stack of scopes, each holding its invariant against the current
/// state.
pub open spec fn ctx_wf(c: CtxModel) -> bool {
    &&& store_wf(c.store)
    &&& forall|k: int| 0 <= k < c.scopes.len() ==> #[trigger] scope_inv(c.store, c.scopes[k])
    &&& forall|k1: int, k2: int|
        0 <= k1 <= k2 < c.scopes.len() ==> #[trigger] marks_le(c.scopes[k1], c.scopes[k2])
}

/// Whether the innermost scope is an open query.
pub open spec fn top_is_query(c: CtxModel) -> bool {
    c.scopes.len() > 0 && c.scopes.last().kind is Query
}

/// Whether the innermost scope is a frame.
pub open spec fn top_is_frame(c: CtxModel) -> bool {
    c.scopes.len() > 0 && c.scopes.last().kind is Frame
}

/// Rewinding to a scope's trail mark restores exactly the state the scope
/// opened with: the trail reads as at open, every slot that existed then
/// holds what it held then, and every younger slot is a free variable.
pub proof fn lemma_scope_restore(cur: StoreModel, sc: ScopeModel)
    requires
        store_wf(cur),
        scope_inv(cur, sc),
    ensures
        rewind_model(cur, sc.tm).trail == sc.snap.trail,
        rewind_model(cur, sc.tm).slots.len() == cur.slots.len(),
        forall|i: int|
            0 <= i < sc.sm ==> #[trigger] rewind_model(cur, sc.tm).slots[i] == sc.snap.slots[i],
        forall|i: int|
            sc.sm <= i < cur.slots.len() ==> #[trigger] rewind_model(cur, sc.tm).slots[i] is Free,
{
    let s2 = rewind_model(cur, sc.tm);
    assert(s2.trail == cur.trail.take(sc.tm));
    assert forall|i: int| 0 <= i < sc.sm implies #[trigger] s2.slots[i] == sc.snap.slots[i] by {
        assert(scope_slot_ok(cur, sc, i));
        if trailed_at_or_after(cur.trail, sc.tm, i) {
            // The slot was bound since the mark, so it was not trailed
            // before the mark, hence free in the snapshot.
            let p = choose|p: int| sc.tm <= p < cur.trail.len() && cur.trail[p] == i;
            if !(sc.snap.slots[i] is Free) {
                assert(sc.snap.trail.contains(i));
                let q = choose|q: int| 0 <= q < sc.snap.trail.len() && sc.snap.trail[q] == i;
                assert(cur.trail.take(sc.tm)[q] == i);
                assert(cur.trail[q] == cur.trail[p] && q < p);
                assert(false);
            }
        }
    }
    assert forall|i: int| sc.sm <= i < cur.slots.len() implies #[trigger] s2.slots[i] is Free by {
        if !trailed_at_or_after(cur.trail, sc.tm, i) {
            if !(cur.slots[i] is Free) {
                assert(cur.trail.contains(i));
                let q = choose|q: int| 0 <= q < cur.trail.len() && cur.trail[q] == i;
                assert(q < sc.tm);
                assert(cur.trail.take(sc.tm)[q] == i);
                assert(sc.snap.trail[q] == i);
                assert(0 <= sc.snap.trail[q] < sc.snap.slots.len());
                assert(false);
            }
        }
    }
}

/// Binding a free slot preserves every scope's invariant.
pub proof fn lemma_scope_inv_after_record(pre: StoreModel, sc: ScopeModel, i: int, b: BindingModel)
    requires
        store_wf(pre),
        scope_inv(pre, sc),
        0 <= i < pre.slots.len(),
        pre.slots[i] is Free,
        !(b is Free),
    ensures
        scope_inv(record_binding(pre, i, b), sc),
{
    let s2 = record_binding(pre, i, b);
    assert(s2.trail.take(sc.tm) =~= pre.trail.take(sc.tm));
    assert forall|k: int| 0 <= k < sc.sm implies #[trigger] scope_slot_ok(s2, sc, k) by {
        assert(scope_slot_ok(pre, sc, k));
        if k == i {
            assert(s2.trail[s2.trail.len() - 1] == i);
            assert(trailed_at_or_after(s2.trail, sc.tm, k));
            assert(sc.snap.slots[k] is Free);
        } else {
            assert(s2.slots[k] == pre.slots[k]);
            if trailed_at_or_after(pre.trail, sc.tm, k) {
                let p = choose|p: int| sc.tm <= p < pre.trail.len() && pre.trail[p] == k;
                assert(s2.trail[p] == k);
                assert(trailed_at_or_after(s2.trail, sc.tm, k));
            }
        }
    }
}

/// Allocating a fresh slot preserves every scope's invariant.
pub proof fn lemma_scope_inv_after_push_slot(pre: StoreModel, sc: ScopeModel)
    requires
        scope_inv(pre, sc),
    ensures
        scope_inv(
            StoreModel { slots: pre.slots.push(BindingModel::Free), ..pre },
            sc,
        ),
{
    let s2 = StoreModel { slots: pre.slots.push(BindingModel::Free), ..pre };
    assert forall|k: int| 0 <= k < sc.sm implies #[trigger] scope_slot_ok(s2, sc, k) by {
        assert(scope_slot_ok(pre, sc, k));
        assert(s2.slots[k] == pre.slots[k]);
    }
}

/// Rewinding to a mark at or inside a scope preserves that scope's
/// invariant.
pub proof fn lemma_scope_inv_after_rewind(pre: StoreModel, sc: ScopeModel, m: int)
    requires
        store_wf(pre),
        scope_inv(pre, sc),
        sc.tm <= m <= pre.trail.len(),
    ensures
        scope_inv(rewind_model(pre, m), sc),
{
    let s2 = rewind_model(pre, m);
    assert(s2.trail.take(sc.tm) =~= pre.trail.take(sc.tm));
    assert forall|k: int| 0 <= k < sc.sm implies #[trigger] scope_slot_ok(s2, sc, k) by {
        assert(scope_slot_ok(pre, sc, k));
        if trailed_at_or_after(pre.trail, m, k) {
            // Freed by this rewind; it was free in the snapshot, since its
            // trail entry lies at or after the scope's mark.
            let p = choose|p: int| m <= p < pre.trail.len() && pre.trail[p] == k;
            if !(sc.snap.slots[k] is Free) {
                assert(sc.snap.trail.contains(k));
                let q = choose|q: int| 0 <= q < sc.snap.trail.len() && sc.snap.trail[q] == k;
                assert(pre.trail.take(sc.tm)[q] == k);
                assert(pre.trail[q] == pre.trail[p] && q < p);
                assert(false);
            }
            assert(s2.slots[k] is Free);
        } else {
            assert(s2.slots[k] == pre.slots[k]);
            if !(s2.slots[k] == sc.snap.slots[k]) {
                assert(sc.snap.slots[k] is Free && trailed_at_or_after(pre.trail, sc.tm, k));
                let p = choose|p: int| sc.tm <= p < pre.trail.len() && pre.trail[p] == k;
                assert(p < m);
                assert(s2.trail[p] == k);
                assert(trailed_at_or_after(s2.trail, sc.tm, k));
            }
        }
    }
}

/// Appending a predicate table entry preserves every scope's invariant.
pub proof fn lemma_scope_inv_after_pred_push(pre: StoreModel, sc: ScopeModel, e: PredModel)
    requires
        scope_inv(pre, sc),
    ensures
        scope_inv(StoreModel { preds: pre.preds.push(e), ..pre }, sc),
{
    let s2 = StoreModel { preds: pre.preds.push(e), ..pre };
    assert forall|k: int| 0 <= k < sc.sm implies #[trigger] scope_slot_ok(s2, sc, k) by {
        assert(scope_slot_ok(pre, sc, k));
    }
    match sc.kind {
        ScopeKindModel::Query(q) => {
            assert(s2.preds[q.pred] == pre.preds[q.pred]);
        },
        ScopeKindModel::Frame => {},
    }
}

/// Updating a table entry's behavior (not its arity) preserves every
/// scope's invariant.
pub proof fn lemma_scope_inv_after_pred_update(
    pre: StoreModel,
    sc: ScopeModel,
    h: int,
    e: PredModel,
)
    requires
        scope_inv(pre, sc),
        0 <= h < pre.preds.len(),
        e.arity == pre.preds[h].arity,
    ensures
        scope_inv(StoreModel { preds: pre.preds.update(h, e), ..pre }, sc),
{
    let s2 = StoreModel { preds: pre.preds.update(h, e), ..pre };
    assert forall|k: int| 0 <= k < sc.sm implies #[trigger] scope_slot_ok(s2, sc, k) by {
        assert(scope_slot_ok(pre, sc, k));
    }
    match sc.kind {
        ScopeKindModel::Query(q) => {
            assert(s2.preds[q.pred].arity == pre.preds[q.pred].arity);
        },
        ScopeKindModel::Frame => {},
    }
}

/// Changing only the pending exception preserves every scope's invariant.
pub proof fn lemma_scope_inv_after_exception(pre: StoreModel, sc: ScopeModel, e: Option<Datum>)
    requires
        scope_inv(pre, sc),
    ensures
        scope_inv(StoreModel { exception: e, ..pre }, sc),
{
    let s2 = StoreModel { exception: e, ..pre };
    assert(s2.trail.take(sc.tm) == pre.trail.take(sc.tm));
    assert forall|k: int| 0 <= k < sc.sm implies #[trigger] scope_slot_ok(s2, sc, k) by {
        assert(scope_slot_ok(pre, sc, k));
    }
}

/// The capability for one activation of one engine.
pub struct Context {
    pub(crate) engine: u64,
    pub(crate) store: Store,
    pub(crate) scopes: Vec<Scope>,
}

impl View for Context {
    type V = CtxModel;

    closed spec fn view(&self) -> CtxModel {
        CtxModel {
            engine: self.engine,
            store: self.store@,
            scopes: Seq::new(self.scopes@.len(), |i: int| self.scopes@[i]@),
        }
    }
}

impl Context {
    /// Well-formedness; established at activation, preserved by every
    /// operation.
    pub open spec fn wf(&self) -> bool {
        ctx_wf(self@)
    }

    /// How the context's abstraction is composed from its parts.
    pub(crate) proof fn lemma_view_parts(&self)
        ensures
            self@.engine == self.engine,
            self@.store == self.store@,
            self@.scopes.len() == self.scopes@.len(),
            forall|i: int|
                0 <= i < self.scopes@.len() ==> #[trigger] self@.scopes[i] == self.scopes@[i]@,
    {
    }

    pub(crate) fn from_store(engine: u64, store: Store) -> (c: Context)
        requires
            store_wf(store@),
        ensures
            c.wf(),
            c@.engine == engine,
            c@.store == store@,
            c@.scopes.len() == 0,
    {
        let c = Context { engine, store, scopes: Vec::new() };
        proof {
            assert(c@.scopes =~= Seq::<ScopeModel>::empty());
        }
        c
    }

    pub(crate) fn release_store(self) -> (r: (u64, Store))
        requires
            self.wf(),
        ensures
            store_wf(r.1@),
            r.1@ == self@.store,
            r.0 == self@.engine,
    {
        let Context { engine, store, scopes: _ } = self;
        (engine, store)
    }

    /// The identity of the engine this context governs.
    pub fn engine_id(&self) -> (r: u64)
        ensures
            r == self@.engine,
    {
        self.engine
    }

    /// How many scopes are currently open.
    pub fn depth(&self) -> (r: usize)
        ensures
            r == self@.scopes.len(),
    {
        self.scopes.len()
    }

    /// How many term slots this engine has allocated.
    pub fn slot_count(&self) -> (r: usize)
        ensures
            r == self@.store.slots.len(),
    {
        self.store.slot_count()
    }

    /// Create a fresh term: an unbound variable on this engine's stack.
    ///
    /// Not permitted while the innermost scope is an open query — the
    /// engine's stack must not change between solutions; open a nested
    /// frame first.
    pub fn new_term_ref(&mut self) -> (t: Term)
        requires
            old(self).wf(),
            !top_is_query(old(self)@),
        ensures
            final(self).wf(),
            final(self)@.engine == old(self)@.engine,
            final(self)@.scopes == old(self)@.scopes,
            final(self)@.store == (StoreModel {
                slots: old(self)@.store.slots.push(BindingModel::Free),
                ..old(self)@.store
            }),
            t.engine_of() == old(self)@.engine,
            t.slot_id() == old(self)@.store.slots.len(),
    {
        let i = self.store.fresh_slot();
        proof {
            assert(self@.scopes =~= old(self)@.scopes);
            assert forall|k: int|
                0 <= k < self@.scopes.len() implies #[trigger] scope_inv(
                self@.store,
                self@.scopes[k],
            ) by {
                lemma_scope_inv_after_push_slot(old(self)@.store, old(self)@.scopes[k]);
            }
        }
        Term::new(i, self.engine)
    }

    /// Open a frame: a save-point on the term stack. Everything bound or
    /// allocated from now on can be undone in one step by rewinding or
    /// discarding the frame.
    pub fn open_frame(&mut self) -> (r: ())
        requires
            old(self).wf(),
        ensures
            final(self).wf(),
            final(self)@.engine == old(self)@.engine,
            final(self)@.store == old(self)@.store,
            final(self)@.scopes == old(self)@.scopes.push(ScopeModel {
                kind: ScopeKindModel::Frame,
                tm: old(self)@.store.trail.len() as int,
                sm: old(self)@.store.slots.len() as int,
                snap: old(self)@.store,
            }),
    {
        let tm = self.store.trail_mark();
        let sm = self.store.slot_count();
        let sc = Scope {
            kind: ScopeKind::Frame,
            trail_mark: tm,
            slot_mark: sm,
            snap: Ghost(self.store@),
        };
        self.scopes.push(sc);
        proof {
            let scm = (ScopeModel {
                kind: ScopeKindModel::Frame,
                tm: old(self)@.store.trail.len() as int,
                sm: old(self)@.store.slots.len() as int,
                snap: old(self)@.store,
            });
            assert(self@.scopes =~= old(self)@.scopes.push(scm));
            assert(self@.store.trail.take(scm.tm) =~= self@.store.trail);
            assert forall|i: int| 0 <= i < scm.sm implies #[trigger] scope_slot_ok(
                self@.store,
                scm,
                i,
            ) by {}
            assert(scope_inv(self@.store, scm));
            assert forall|k: int|
                0 <= k < self@.scopes.len() implies #[trigger] scope_inv(
                self@.store,
                self@.scopes[k],
            ) by {
                if k < self@.scopes.len() - 1 {
                    assert(self@.scopes[k] == old(self)@.scopes[k]);
                    assert(scope_inv(old(self)@.store, old(self)@.scopes[k]));
                }
            }
            assert forall|k1: int, k2: int|
                0 <= k1 <= k2 < self@.scopes.len() implies #[trigger] marks_le(
                self@.scopes[k1],
                self@.scopes[k2],
            ) by {
                if k2 < self@.scopes.len() - 1 {
                    assert(marks_le(old(self)@.scopes[k1], old(self)@.scopes[k2]));
                } else if k1 < self@.scopes.len() - 1 {
                    assert(scope_inv(old(self)@.store, old(self)@.scopes[k1]));
                }
            }
        }
    }

    /// Close the innermost frame, committing its work: bindings made while
    /// the frame was open — including those against older terms — remain.
    pub fn close_frame(&mut self) -> (r: ())
        requires
            old(self).wf(),
            top_is_frame(old(self)@),
        ensures
            final(self).wf(),
            final(self)@.engine == old(self)@.engine,
            final(self)@.store == old(self)@.store,
            final(self)@.scopes == old(self)@.scopes.drop_last(),
    {
        self.scopes.pop().unwrap();
        proof {
            assert(self@.scopes =~= old(self)@.scopes.drop_last());
            self.lemma_wf_after_pop(old(self)@);
        }
    }

    /// Rewind the innermost frame: undo every binding made since it was
    /// opened — bindings older than the frame are untouched — and free
    /// every term allocated since. The frame stays open, ready for another
    /// attempt.
    pub fn rewind_frame(&mut self) -> (r: ())
        requires
            old(self).wf(),
            top_is_frame(old(self)@),
        ensures
            final(self).wf(),
            final(self)@.engine == old(self)@.engine,
            final(self)@.scopes == old(self)@.scopes,
            final(self)@.store == rewind_model(
                old(self)@.store,
                old(self)@.scopes.last().tm,
            ),
            final(self)@.store.trail == old(self)@.scopes.last().snap.trail,
            forall|i: int|
                0 <= i < old(self)@.scopes.last().sm ==> #[trigger] final(self)@.store.slots[i]
                    == old(self)@.scopes.last().snap.slots[i],
            forall|i: int|
                old(self)@.scopes.last().sm <= i < old(self)@.store.slots.len()
                    ==> #[trigger] final(self)@.store.slots[i] is Free,
            final(self)@.store.exception == old(self)@.store.exception,
            final(self)@.store.preds == old(self)@.store.preds,
    {
        let depth = self.scopes.len();
        let tm = self.scopes[depth - 1].trail_mark;
        proof {
            assert(self@.scopes[depth - 1] == self@.scopes.last());
            assert(scope_inv(self@.store, self@.scopes.last()));
        }
        self.store.rewind_to(tm);
        proof {
            assert(self@.scopes =~= old(self)@.scopes);
            lemma_scope_restore(old(self)@.store, old(self)@.scopes.last());
            assert forall|k: int|
                0 <= k < self@.scopes.len() implies #[trigger] scope_inv(
                self@.store,
                self@.scopes[k],
            ) by {
                assert(marks_le(old(self)@.scopes[k], old(self)@.scopes.last()));
                lemma_scope_inv_after_rewind(old(self)@.store, old(self)@.scopes[k], tm as int);
            }
        }
    }

    /// Discard the innermost frame: rewind it and close it. This is what
    /// dropping an unclosed frame does in the engine.
    pub fn discard_frame(&mut self) -> (r: ())
        requires
            old(self).wf(),
            top_is_frame(old(self)@),
        ensures
            final(self).wf(),
            final(self)@.engine == old(self)@.engine,
            final(self)@.scopes == old(self)@.scopes.drop_last(),
            final(self)@.store == rewind_model(
                old(self)@.store,
                old(self)@.scopes.last().tm,
            ),
            final(self)@.store.trail == old(self)@.scopes.last().snap.trail,
            forall|i: int|
                0 <= i < old(self)@.scopes.last().sm ==> #[trigger] final(self)@.store.slots[i]
                    == old(self)@.scopes.last().snap.slots[i],
            forall|i: int|
                old(self)@.scopes.last().sm <= i < old(self)@.store.slots.len()
                    ==> #[trigger] final(self)@.store.slots[i] is Free,
            final(self)@.store.exception == old(self)@.store.exception,
            final(self)@.store.preds == old(self)@.store.preds,
    {
        self.rewind_frame();
        self.close_frame();
    }

    /// After popping the innermost scope, well-formedness carries over.
    pub(crate) proof fn lemma_wf_after_pop(&self, pre: CtxModel)
        requires
            ctx_wf(pre),
            pre.scopes.len() > 0,
            self@.engine == pre.engine,
            self@.store == pre.store,
            self@.scopes == pre.scopes.drop_last(),
        ensures
            ctx_wf(self@),
    {
        assert forall|k: int|
            0 <= k < self@.scopes.len() implies #[trigger] scope_inv(
            self@.store,
            self@.scopes[k],
        ) by {
            assert(self@.scopes[k] == pre.scopes[k]);
            assert(scope_inv(pre.store, pre.scopes[k]));
        }
        assert forall|k1: int, k2: int|
            0 <= k1 <= k2 < self@.scopes.len() implies #[trigger] marks_le(
            self@.scopes[k1],
            self@.scopes[k2],
        ) by {
            assert(self@.scopes[k1] == pre.scopes[k1]);
            assert(self@.scopes[k2] == pre.scopes[k2]);
            assert(marks_le(pre.scopes[k1], pre.scopes[k2]));
        }
    }
}

impl Context {
    /// Unify the slot behind `slot` with the concrete value `v`.
    pub(crate) fn unify_slot_value(&mut self, slot: usize, v: &TermValue) -> (r: bool)
        requires
            old(self).wf(),
            slot < old(self)@.store.slots.len(),
        ensures
            final(self).wf(),
            final(self)@.engine == old(self)@.engine,
            final(self)@.scopes == old(self)@.scopes,
            final(self)@.store == unify_value_model(old(self)@.store, slot as int, v@).0,
            r == unify_value_model(old(self)@.store, slot as int, v@).1,
    {
        let r = self.store.unify_value(slot, v);
        proof {
            assert(self@.scopes =~= old(self)@.scopes);
            lemma_ctx_scopes_after_unify_value(old(self)@, slot as int, v@);
        }
        r
    }

    /// Unify the two slots behind `a` and `b` with each other.
    pub(crate) fn unify_slot_slot(&mut self, a: usize, b: usize) -> (r: bool)
        requires
            old(self).wf(),
            a < old(self)@.store.slots.len(),
            b < old(self)@.store.slots.len(),
        ensures
            final(self).wf(),
            final(self)@.engine == old(self)@.engine,
            final(self)@.scopes == old(self)@.scopes,
            final(self)@.store == unify_slots_model(old(self)@.store, a as int, b as int).0,
            r == unify_slots_model(old(self)@.store, a as int, b as int).1,
    {
        let r = self.store.unify_slots(a, b);
        proof {
            assert(self@.scopes =~= old(self)@.scopes);
            lemma_ctx_scopes_after_unify_slots(old(self)@, a as int, b as int);
        }
        r
    }

    /// The concrete value the slot behind `slot` denotes, if any.
    pub(crate) fn read_slot(&self, slot: usize) -> (r: Option<TermValue>)
        requires
            self.wf(),
            slot < self@.store.slots.len(),
        ensures
            r is Some <==> crate::store::value_at(self@.store.slots, slot as int) is Some,
            r matches Some(v) ==> crate::store::value_at(self@.store.slots, slot as int) == Some(
                v@,
            ),
    {
        self.store.get_value(slot)
    }
}

/// The context with the query payload of its innermost scope replaced.
pub open spec fn with_top_query(c: CtxModel, q: QueryModel) -> CtxModel {
    CtxModel {
        scopes: c.scopes.update(
            c.scopes.len() - 1,
            ScopeModel { kind: ScopeKindModel::Query(q), ..c.scopes.last() },
        ),
        ..c
    }
}

impl Context {
    /// Push a freshly opened query as the innermost scope. The caller
    /// establishes well-formedness.
    pub(crate) fn push_query_scope(
        &mut self,
        pred: usize,
        args_start: usize,
        trail_mark: usize,
        slot_mark: usize,
        snap: Ghost<StoreModel>,
    ) -> (r: ())
        ensures
            final(self)@.engine == old(self)@.engine,
            final(self)@.store == old(self)@.store,
            final(self)@.scopes == old(self)@.scopes.push(ScopeModel {
                kind: ScopeKindModel::Query(
                    QueryModel {
                        pred: pred as int,
                        args_start: args_start as int,
                        produced: 0,
                        done: false,
                    },
                ),
                tm: trail_mark as int,
                sm: slot_mark as int,
                snap: snap@,
            }),
    {
        let q = OpenQuery { pred, args_start, produced: 0, done: false };
        let sc = Scope { kind: ScopeKind::Query(q), trail_mark, slot_mark, snap };
        self.scopes.push(sc);
        proof {
            assert(self@.scopes =~= old(self)@.scopes.push(ScopeModel {
                kind: ScopeKindModel::Query(
                    QueryModel {
                        pred: pred as int,
                        args_start: args_start as int,
                        produced: 0,
                        done: false,
                    },
                ),
                tm: trail_mark as int,
                sm: slot_mark as int,
                snap: snap@,
            }));
        }
    }

    /// Drop the innermost scope. The caller establishes well-formedness.
    pub(crate) fn pop_scope(&mut self) -> (r: ())
        requires
            old(self)@.scopes.len() > 0,
        ensures
            final(self)@.engine == old(self)@.engine,
            final(self)@.store == old(self)@.store,
            final(self)@.scopes == old(self)@.scopes.drop_last(),
    {
        self.scopes.pop().unwrap();
        proof {
            assert(self@.scopes =~= old(self)@.scopes.drop_last());
        }
    }

    /// The save-point marks of the innermost scope.
    pub(crate) fn top_scope_marks(&self) -> (r: (usize, usize))
        requires
            self@.scopes.len() > 0,
        ensures
            r.0 as int == self@.scopes.last().tm,
            r.1 as int == self@.scopes.last().sm,
    {
        let depth = self.scopes.len();
        proof {
            assert(self@.scopes[depth - 1] == self@.scopes.last());
        }
        (self.scopes[depth - 1].trail_mark, self.scopes[depth - 1].slot_mark)
    }

    /// The query payload of the innermost scope: predicate handle, start
    /// of the argument block, solutions produced, finished flag.
    pub(crate) fn top_query_state(&self) -> (r: (usize, usize, u64, bool))
        requires
            top_is_query(self@),
        ensures
            self@.scopes.last().kind == ScopeKindModel::Query(
                QueryModel {
                    pred: r.0 as int,
                    args_start: r.1 as int,
                    produced: r.2 as int,
                    done: r.3,
                },
            ),
    {
        let depth = self.scopes.len();
        proof {
            assert(self@.scopes[depth - 1] == self@.scopes.last());
        }
        match &self.scopes[depth - 1].kind {
            ScopeKind::Query(q) => (q.pred, q.args_start, q.produced, q.done),
            ScopeKind::Frame => unreached(),
        }
    }

    /// Update the bookkeeping of the innermost query scope. Predicate and
    /// argument block stay as they are, so every scope's invariant is
    /// preserved.
    pub(crate) fn set_top_query_state(&mut self, produced: u64, done: bool) -> (r: ())
        requires
            old(self).wf(),
            top_is_query(old(self)@),
        ensures
            final(self).wf(),
            final(self)@ == with_top_query(
                old(self)@,
                QueryModel {
                    pred: old(self)@.scopes.last().kind->Query_0.pred,
                    args_start: old(self)@.scopes.last().kind->Query_0.args_start,
                    produced: produced as int,
                    done,
                },
            ),
    {
        let depth = self.scopes.len();
        proof {
            assert(self@.scopes[depth - 1] == self@.scopes.last());
        }
        let (pred, args_start, _, _) = self.top_query_state();
        let trail_mark = self.scopes[depth - 1].trail_mark;
        let slot_mark = self.scopes[depth - 1].slot_mark;
        let snap = self.scopes[depth - 1].snap;
        self.scopes[depth - 1] = Scope {
            kind: ScopeKind::Query(OpenQuery { pred, args_start, produced, done }),
            trail_mark,
            slot_mark,
            snap,
        };
        proof {
            let q2 = (QueryModel {
                pred: old(self)@.scopes.last().kind->Query_0.pred,
                args_start: old(self)@.scopes.last().kind->Query_0.args_start,
                produced: produced as int,
                done,
            });
            assert(self@.scopes =~= with_top_query(old(self)@, q2).scopes);
            assert(self@ =~= with_top_query(old(self)@, q2));
            let last = self@.scopes.len() - 1;
            assert forall|k: int|
                0 <= k < self@.scopes.len() implies #[trigger] scope_inv(
                self@.store,
                self@.scopes[k],
            ) by {
                assert(scope_inv(old(self)@.store, old(self)@.scopes[k]));
                if k == last {
                    let scn = self@.scopes[last];
                    let sco = old(self)@.scopes[last];
                    assert forall|i: int| 0 <= i < scn.sm implies #[trigger] scope_slot_ok(
                        self@.store,
                        scn,
                        i,
                    ) by {
                        assert(scope_slot_ok(old(self)@.store, sco, i));
                    }
                }
            }
            assert forall|k1: int, k2: int|
                0 <= k1 <= k2 < self@.scopes.len() implies #[trigger] marks_le(
                self@.scopes[k1],
                self@.scopes[k2],
            ) by {
                assert(marks_le(old(self)@.scopes[k1], old(self)@.scopes[k2]));
            }
        }
    }
}

impl Context {
    /// Resolve (module, name, arity) to a predicate handle, interning the
    /// triple in the engine's table on first use. Resolution is
    /// idempotent: resolving an already-interned triple changes nothing
    /// and yields the same handle.
    pub fn resolve_predicate(&mut self, module: &str, name: &str, arity: u16) -> (p: Predicate)
        requires
            old(self).wf(),
        ensures
            final(self).wf(),
            final(self)@.engine == old(self)@.engine,
            final(self)@.scopes == old(self)@.scopes,
            final(self)@.store.slots == old(self)@.store.slots,
            final(self)@.store.trail == old(self)@.store.trail,
            final(self)@.store.exception == old(self)@.store.exception,
            p.arity_of() == arity,
            0 <= p.handle_id() < final(self)@.store.preds.len(),
            pred_key_matches(final(self)@.store.preds[p.handle_id()], module@, name@, arity),
            p.handle_id() == find_pred(final(self)@.store.preds, module@, name@, arity),
            forall|k: int|
                0 <= k < old(self)@.store.preds.len() ==> #[trigger] final(self)@.store.preds[k]
                    == old(self)@.store.preds[k],
            find_pred(old(self)@.store.preds, module@, name@, arity) >= 0 ==> final(self)@.store
                == old(self)@.store && p.handle_id() == find_pred(
                old(self)@.store.preds,
                module@,
                name@,
                arity,
            ),
            find_pred(old(self)@.store.preds, module@, name@, arity) == -1
                ==> final(self)@.store.preds == old(self)@.store.preds.push(
                PredModel { module: module@, name: name@, arity, behavior: None },
            ),
    {
        let h = self.store.intern_pred(module, name, arity);
        proof {
            crate::predicate::lemma_find_pred_properties(
                old(self)@.store.preds,
                module@,
                name@,
                arity,
            );
            assert(self@.scopes =~= old(self)@.scopes);
            let entry = (PredModel { module: module@, name: name@, arity, behavior: None });
            assert forall|k: int|
                0 <= k < self@.scopes.len() implies #[trigger] scope_inv(
                self@.store,
                self@.scopes[k],
            ) by {
                if find_pred(old(self)@.store.preds, module@, name@, arity) == -1 {
                    lemma_scope_inv_after_pred_push(
                        old(self)@.store,
                        old(self)@.scopes[k],
                        entry,
                    );
                } else {
                    assert(self@.store == old(self)@.store);
                }
            }
        }
        Predicate::make(h, arity)
    }

    /// Resolve (module, name, arity) and register what the predicate does
    /// when it is called. A behavior that unifies the first argument needs
    /// a predicate of arity at least one.
    pub fn register_predicate(
        &mut self,
        module: &str,
        name: &str,
        arity: u16,
        behavior: PredicateBehavior,
    ) -> (p: Predicate)
        requires
            old(self).wf(),
            behavior matches PredicateBehavior::UnifyArg(_) ==> arity >= 1,
        ensures
            final(self).wf(),
            final(self)@.engine == old(self)@.engine,
            final(self)@.scopes == old(self)@.scopes,
            final(self)@.store.slots == old(self)@.store.slots,
            final(self)@.store.trail == old(self)@.store.trail,
            final(self)@.store.exception == old(self)@.store.exception,
            p.arity_of() == arity,
            0 <= p.handle_id() < final(self)@.store.preds.len(),
            final(self)@.store.preds[p.handle_id()] == (PredModel {
                module: module@,
                name: name@,
                arity,
                behavior: Some(behavior@),
            }),
            p.handle_id() == find_pred(final(self)@.store.preds, module@, name@, arity),
            forall|k: int|
                0 <= k < old(self)@.store.preds.len() && k != p.handle_id()
                    ==> #[trigger] final(self)@.store.preds[k] == old(self)@.store.preds[k],
            final(self)@.store.preds.len() == old(self)@.store.preds.len() || final(self)@.store.preds.len()
                == old(self)@.store.preds.len() + 1,
    {
        let h = self.store.intern_pred(module, name, arity);
        proof {
            crate::predicate::lemma_find_pred_properties(
                old(self)@.store.preds,
                module@,
                name@,
                arity,
            );
            assert(self@.scopes =~= old(self)@.scopes);
            let entry = (PredModel { module: module@, name: name@, arity, behavior: None });
            assert forall|k: int|
                0 <= k < self@.scopes.len() implies #[trigger] scope_inv(
                self@.store,
                self@.scopes[k],
            ) by {
                if find_pred(old(self)@.store.preds, module@, name@, arity) == -1 {
                    lemma_scope_inv_after_pred_push(
                        old(self)@.store,
                        old(self)@.scopes[k],
                        entry,
                    );
                } else {
                    assert(self@.store == old(self)@.store);
                }
            }
        }
        let ghost pre2 = self@;
        self.store.set_behavior(h, behavior);
        proof {
            assert(self@.scopes =~= old(self)@.scopes);
            let updated = (PredModel { behavior: Some(behavior@), ..pre2.store.preds[h as int] });
            assert forall|k: int|
                0 <= k < self@.scopes.len() implies #[trigger] scope_inv(
                self@.store,
                self@.scopes[k],
            ) by {
                assert(scope_inv(pre2.store, pre2.scopes[k]));
                lemma_scope_inv_after_pred_update(pre2.store, pre2.scopes[k], h as int, updated);
            }
            assert(self@.store.preds[h as int] == (PredModel {
                module: module@,
                name: name@,
                arity,
                behavior: Some(behavior@),
            }));
            assert forall|k: int|
                0 <= k < self@.store.preds.len() implies (pred_key_matches(
                #[trigger] self@.store.preds[k],
                module@,
                name@,
                arity,
            ) <==> pred_key_matches(#[trigger] pre2.store.preds[k], module@, name@, arity)) by {}
            lemma_find_pred_keys_only(
                self@.store.preds,
                pre2.store.preds,
                module@,
                name@,
                arity,
            );
        }
        Predicate::make(h, arity)
    }

    /// Whether an engine-level exception is pending.
    pub fn has_pending_exception(&self) -> (r: bool)
        ensures
            r == (self@.store.exception is Some),
    {
        self.store.has_exception()
    }

    /// The pending exception value, if any. Fetching does not consume it:
    /// it stays pending until cleared.
    pub fn pending_exception(&self) -> (r: Option<TermValue>)
        ensures
            r is Some <==> self@.store.exception is Some,
            r matches Some(v) ==> self@.store.exception == Some(v@),
    {
        self.store.exception_value()
    }

    /// Consume the pending exception, leaving none.
    pub fn clear_exception(&mut self) -> (r: ())
        requires
            old(self).wf(),
        ensures
            final(self).wf(),
            final(self)@.engine == old(self)@.engine,
            final(self)@.scopes == old(self)@.scopes,
            final(self)@.store == (StoreModel { exception: None, ..old(self)@.store }),
    {
        self.store.clear_exception();
        proof {
            assert(self@.scopes =~= old(self)@.scopes);
            assert forall|k: int|
                0 <= k < self@.scopes.len() implies #[trigger] scope_inv(
                self@.store,
                self@.scopes[k],
            ) by {
                lemma_scope_inv_after_exception(old(self)@.store, old(self)@.scopes[k], None);
            }
        }
    }
}

/// Unifying a slot with a value preserves a scope's invariant.
pub(crate) proof fn lemma_scope_inv_after_unify_value(
    pre: StoreModel,
    sc: ScopeModel,
    i: int,
    d: Datum,
)
    requires
        store_wf(pre),
        scope_inv(pre, sc),
        0 <= i < pre.slots.len(),
    ensures
        scope_inv(unify_value_model(pre, i, d).0, sc),
{
    let r = crate::store::root_of(pre.slots, i);
    crate::store::lemma_root_of(pre.slots, i);
    match pre.slots[r] {
        BindingModel::Free => {
            lemma_scope_inv_after_record(pre, sc, r, BindingModel::Bound(d));
        },
        _ => {},
    }
}

/// Unifying two slots preserves a scope's invariant.
pub(crate) proof fn lemma_scope_inv_after_unify_slots(
    pre: StoreModel,
    sc: ScopeModel,
    i: int,
    j: int,
)
    requires
        store_wf(pre),
        scope_inv(pre, sc),
        0 <= i < pre.slots.len(),
        0 <= j < pre.slots.len(),
    ensures
        scope_inv(unify_slots_model(pre, i, j).0, sc),
{
    let ri = crate::store::root_of(pre.slots, i);
    let rj = crate::store::root_of(pre.slots, j);
    crate::store::lemma_root_of(pre.slots, i);
    crate::store::lemma_root_of(pre.slots, j);
    if ri != rj {
        match pre.slots[ri] {
            BindingModel::Free => match pre.slots[rj] {
                BindingModel::Free => {
                    if rj < ri {
                        lemma_scope_inv_after_record(pre, sc, ri, BindingModel::Link(rj));
                    } else {
                        lemma_scope_inv_after_record(pre, sc, rj, BindingModel::Link(ri));
                    }
                },
                BindingModel::Bound(e) => {
                    lemma_scope_inv_after_record(pre, sc, ri, BindingModel::Bound(e));
                },
                BindingModel::Link(_) => {},
            },
            BindingModel::Bound(d) => match pre.slots[rj] {
                BindingModel::Free => {
                    lemma_scope_inv_after_record(pre, sc, rj, BindingModel::Bound(d));
                },
                _ => {},
            },
            BindingModel::Link(_) => {},
        }
    }
}

/// Unifying a slot with a value preserves every scope's invariant.
proof fn lemma_ctx_scopes_after_unify_value(pre: CtxModel, i: int, d: Datum)
    requires
        ctx_wf(pre),
        0 <= i < pre.store.slots.len(),
    ensures
        forall|k: int|
            0 <= k < pre.scopes.len() ==> #[trigger] scope_inv(
                unify_value_model(pre.store, i, d).0,
                pre.scopes[k],
            ),
{
    assert forall|k: int|
        0 <= k < pre.scopes.len() implies #[trigger] scope_inv(
        unify_value_model(pre.store, i, d).0,
        pre.scopes[k],
    ) by {
        lemma_scope_inv_after_unify_value(pre.store, pre.scopes[k], i, d);
    }
}

/// Unifying two slots preserves every scope's invariant.
proof fn lemma_ctx_scopes_after_unify_slots(pre: CtxModel, i: int, j: int)
    requires
        ctx_wf(pre),
        0 <= i < pre.store.slots.len(),
        0 <= j < pre.store.slots.len(),
    ensures
        forall|k: int|
            0 <= k < pre.scopes.len() ==> #[trigger] scope_inv(
                unify_slots_model(pre.store, i, j).0,
                pre.scopes[k],
            ),
{
    assert forall|k: int|
        0 <= k < pre.scopes.len() implies #[trigger] scope_inv(
        unify_slots_model(pre.store, i, j).0,
        pre.scopes[k],
    ) by {
        lemma_scope_inv_after_unify_slots(pre.store, pre.scopes[k], i, j);
    }
}

} // verus!
