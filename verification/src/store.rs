//! The engine's mutable state: term slots, the binding trail, the pending
//! exception, and the predicate table.
//!
//! The term stack is modeled as a sequence of slots. A slot is `Free` (an
//! unbound variable), `Link`ed to an older slot (two variables unified with
//! each other), or `Bound` to a concrete value. A slot leaves `Free` only
//! through unification, and every such transition is recorded on the trail;
//! rewinding the trail to a mark frees exactly the slots bound since that
//! mark and touches nothing else. Slot handles are allocated monotonically
//! and stay stable for the life of the engine: retiring a scope retires its
//! marks, not the handles, so a stale handle can never be confused with a
//! fresh one.

use vstd::prelude::*;
use crate::predicate::{
    find_pred, lemma_find_pred_properties, pred_key_matches, BehaviorModel, PredEntry, PredModel,
    PredicateBehavior,
};
use crate::term::{Datum, TermValue};

verus! {

/// One slot of the term stack.
#[derive(Debug)]
pub enum Binding {
    /// An unbound variable.
    Free,
    /// Unified with another variable; always points at an older slot.
    Link(usize),
    /// Bound to a concrete value.
    Bound(TermValue),
}

/// The mathematical content of one slot.
pub enum BindingModel {
    Free,
    Link(int),
    Bound(Datum),
}

impl View for Binding {
    type V = BindingModel;

    open spec fn view(&self) -> BindingModel {
        match self {
            Binding::Free => BindingModel::Free,
            Binding::Link(j) => BindingModel::Link(*j as int),
            Binding::Bound(v) => BindingModel::Bound(v@),
        }
    }
}

impl Clone for Binding {
    fn clone(&self) -> (res: Self)
        ensures
            res@ == self@,
    {
        match self {
            Binding::Free => Binding::Free,
            Binding::Link(j) => Binding::Link(*j),
            Binding::Bound(v) => Binding::Bound(v.clone()),
        }
    }
}

/// The mathematical content of the whole engine state.
#[verifier::ext_equal]
pub struct StoreModel {
    pub slots: Seq<BindingModel>,
    pub trail: Seq<int>,
    pub exception: Option<Datum>,
    pub preds: Seq<PredModel>,
}

/// Links only ever point at strictly older slots, so alias chains are
/// acyclic and terminate.
pub open spec fn links_down(slots: Seq<BindingModel>) -> bool {
    forall|i: int|
        0 <= i < slots.len() ==> (#[trigger] slots[i] matches BindingModel::Link(j) ==> 0 <= j < i)
}

/// Every trail entry designates an existing, currently non-free slot.
pub open spec fn trail_entries_ok(s: StoreModel) -> bool {
    forall|p: int|
        0 <= p < s.trail.len() ==> 0 <= #[trigger] s.trail[p] < s.slots.len() && !(s.slots[s.trail[p]]
            is Free)
}

/// No slot is on the trail twice: a slot is trailed when it leaves `Free`
/// and taken off when a rewind frees it again.
pub open spec fn trail_distinct(t: Seq<int>) -> bool {
    forall|p: int, q: int| 0 <= p < q < t.len() ==> t[p] != t[q]
}

/// Every non-free slot is on the trail: all bindings can be undone.
pub open spec fn bound_is_trailed(s: StoreModel) -> bool {
    forall|i: int|
        0 <= i < s.slots.len() && !(#[trigger] s.slots[i] is Free) ==> s.trail.contains(i)
}

/// Registered behaviors fit the arity of their entry.
pub open spec fn preds_wf(preds: Seq<PredModel>) -> bool {
    forall|k: int|
        0 <= k < preds.len() ==> ((#[trigger] preds[k].behavior) matches Some(b) ==> (b matches
        BehaviorModel::UnifyArg(_) ==> preds[k].arity >= 1))
}

/// Well-formedness of the engine state; every operation preserves it.
pub open spec fn store_wf(s: StoreModel) -> bool {
    &&& links_down(s.slots)
    &&& trail_entries_ok(s)
    &&& trail_distinct(s.trail)
    &&& bound_is_trailed(s)
    &&& preds_wf(s.preds)
}

/// The end of a slot's alias chain: the slot itself unless it links onward.
pub open spec fn root_of(slots: Seq<BindingModel>, i: int) -> int
    decreases i,
{
    if 0 <= i < slots.len() {
        match slots[i] {
            BindingModel::Link(j) => if 0 <= j < i {
                root_of(slots, j)
            } else {
                i
            },
            _ => i,
        }
    } else {
        i
    }
}

/// The concrete value a slot denotes, if its alias chain ends in one.
pub open spec fn value_at(slots: Seq<BindingModel>, i: int) -> Option<Datum> {
    if 0 <= root_of(slots, i) < slots.len() {
        match slots[root_of(slots, i)] {
            BindingModel::Bound(d) => Some(d),
            _ => None,
        }
    } else {
        None
    }
}

/// The root of a chain is in range, not a link, and reachable facts.
pub proof fn lemma_root_of(slots: Seq<BindingModel>, i: int)
    requires
        links_down(slots),
        0 <= i < slots.len(),
    ensures
        0 <= root_of(slots, i) <= i,
        !(slots[root_of(slots, i)] is Link),
    decreases i,
{
    match slots[i] {
        BindingModel::Link(j) => {
            lemma_root_of(slots, j);
        },
        _ => {},
    }
}

/// Record that slot `i` left `Free`: update it and push it on the trail.
pub open spec fn record_binding(s: StoreModel, i: int, b: BindingModel) -> StoreModel {
    StoreModel { slots: s.slots.update(i, b), trail: s.trail.push(i), ..s }
}

/// The state transition of unifying slot `i` with concrete value `d`, and
/// whether the unification succeeds.
pub open spec fn unify_value_model(s: StoreModel, i: int, d: Datum) -> (StoreModel, bool) {
    let r = root_of(s.slots, i);
    match s.slots[r] {
        BindingModel::Free => (record_binding(s, r, BindingModel::Bound(d)), true),
        BindingModel::Bound(e) => (s, d == e),
        BindingModel::Link(_) => (s, false),
    }
}

/// The state transition of unifying the slots `i` and `j` with each other,
/// and whether the unification succeeds. Two free variables alias (the
/// younger root links to the older); a free variable takes the other side's
/// value; two bound slots unify exactly when their values are equal.
pub open spec fn unify_slots_model(s: StoreModel, i: int, j: int) -> (StoreModel, bool) {
    let ri = root_of(s.slots, i);
    let rj = root_of(s.slots, j);
    if ri == rj {
        (s, true)
    } else {
        match s.slots[ri] {
            BindingModel::Free => match s.slots[rj] {
                BindingModel::Free => if rj < ri {
                    (record_binding(s, ri, BindingModel::Link(rj)), true)
                } else {
                    (record_binding(s, rj, BindingModel::Link(ri)), true)
                },
                BindingModel::Bound(e) => (record_binding(s, ri, BindingModel::Bound(e)), true),
                BindingModel::Link(_) => (s, false),
            },
            BindingModel::Bound(d) => match s.slots[rj] {
                BindingModel::Free => (record_binding(s, rj, BindingModel::Bound(d)), true),
                BindingModel::Bound(e) => (s, d == e),
                BindingModel::Link(_) => (s, false),
            },
            BindingModel::Link(_) => (s, false),
        }
    }
}

/// Whether slot `i` appears on the trail at or after position `m`.
pub open spec fn trailed_at_or_after(t: Seq<int>, m: int, i: int) -> bool {
    exists|p: int| m <= p < t.len() && t[p] == i
}

/// The state transition of rewinding the trail to mark `m`: every slot
/// bound since the mark becomes free again, every other slot is untouched,
/// and the trail is cut back to the mark. The pending exception and the
/// predicate table are unaffected.
pub open spec fn rewind_model(s: StoreModel, m: int) -> StoreModel {
    StoreModel {
        slots: Seq::new(
            s.slots.len(),
            |i: int|
                if trailed_at_or_after(s.trail, m, i) {
                    BindingModel::Free
                } else {
                    s.slots[i]
                },
        ),
        trail: s.trail.take(m),
        ..s
    }
}

/// The engine state: term slots, trail, pending exception, predicate table.
#[derive(Debug)]
pub struct Store {
    slots: Vec<Binding>,
    trail: Vec<usize>,
    exception: Option<TermValue>,
    preds: Vec<PredEntry>,
}

impl View for Store {
    type V = StoreModel;

    closed spec fn view(&self) -> StoreModel {
        StoreModel {
            slots: Seq::new(self.slots@.len(), |i: int| self.slots@[i]@),
            trail: Seq::new(self.trail@.len(), |i: int| self.trail@[i] as int),
            exception: match self.exception {
                Some(v) => Some(v@),
                None => None,
            },
            preds: Seq::new(self.preds@.len(), |i: int| self.preds@[i]@),
        }
    }
}

impl Store {
    /// A fresh engine state: no slots, nothing trailed, no pending
    /// exception, an empty predicate table.
    pub(crate) fn empty() -> (s: Store)
        ensures
            s@ == (StoreModel {
                slots: Seq::empty(),
                trail: Seq::empty(),
                exception: None,
                preds: Seq::empty(),
            }),
            store_wf(s@),
    {
        let s = Store { slots: Vec::new(), trail: Vec::new(), exception: None, preds: Vec::new() };
        proof {
            assert(s@.slots =~= Seq::<BindingModel>::empty());
            assert(s@.trail =~= Seq::<int>::empty());
            assert(s@.preds =~= Seq::<PredModel>::empty());
        }
        s
    }

    pub(crate) fn slot_count(&self) -> (n: usize)
        ensures
            n == self@.slots.len(),
    {
        self.slots.len()
    }

    pub(crate) fn trail_mark(&self) -> (n: usize)
        ensures
            n == self@.trail.len(),
    {
        self.trail.len()
    }

    /// Allocate one fresh slot; it starts out as an unbound variable.
    pub(crate) fn fresh_slot(&mut self) -> (i: usize)
        requires
            store_wf(old(self)@),
        ensures
            store_wf(final(self)@),
            final(self)@ == (StoreModel {
                slots: old(self)@.slots.push(BindingModel::Free),
                ..old(self)@
            }),
            i == old(self)@.slots.len(),
    {
        let i = self.slots.len();
        self.slots.push(Binding::Free);
        proof {
            assert(self@.slots =~= old(self)@.slots.push(BindingModel::Free));
            assert(self@.trail =~= old(self)@.trail);
            assert(self@.preds =~= old(self)@.preds);
            assert(self@ =~= (StoreModel {
                slots: old(self)@.slots.push(BindingModel::Free),
                ..old(self)@
            }));
            let s = self@;
            assert forall|k: int| 0 <= k < s.slots.len() implies (#[trigger] s.slots[k] matches
            BindingModel::Link(j) ==> 0 <= j < k) by {
                if k < s.slots.len() - 1 {
                    assert(s.slots[k] == old(self)@.slots[k]);
                }
            }
            assert forall|i2: int|
                0 <= i2 < s.slots.len() && !(#[trigger] s.slots[i2] is Free) implies s.trail.contains(
                i2,
            ) by {
                assert(s.slots[i2] == old(self)@.slots[i2]);
                assert(old(self)@.trail.contains(i2));
                let p = choose|p: int| 0 <= p < old(self)@.trail.len() && old(self)@.trail[p] == i2;
                assert(s.trail[p] == i2);
            }
        }
        i
    }

    /// Follow a slot's alias chain to its end.
    pub(crate) fn find_root(&self, i: usize) -> (r: usize)
        requires
            store_wf(self@),
            i < self@.slots.len(),
        ensures
            r as int == root_of(self@.slots, i as int),
            r <= i,
            !(self@.slots[r as int] is Link),
    {
        let mut cur: usize = i;
        loop
            invariant
                store_wf(self@),
                cur <= i,
                i < self@.slots.len(),
                root_of(self@.slots, cur as int) == root_of(self@.slots, i as int),
            decreases cur,
        {
            match &self.slots[cur] {
                Binding::Link(j) => {
                    let next: usize = *j;
                    proof {
                        assert(self@.slots[cur as int] == BindingModel::Link(next as int));
                        assert(0 <= next < cur);
                    }
                    cur = next;
                },
                _ => {
                    proof {
                        assert(!(self@.slots[cur as int] is Link));
                        assert(root_of(self@.slots, cur as int) == cur as int);
                    }
                    return cur;
                },
            }
        }
    }

    /// The concrete value a slot currently denotes, if any.
    pub(crate) fn get_value(&self, i: usize) -> (r: Option<TermValue>)
        requires
            store_wf(self@),
            i < self@.slots.len(),
        ensures
            r is Some <==> value_at(self@.slots, i as int) is Some,
            r matches Some(v) ==> value_at(self@.slots, i as int) == Some(v@),
    {
        let root = self.find_root(i);
        match &self.slots[root] {
            Binding::Bound(v) => Some(v.clone()),
            _ => None,
        }
    }

    /// Bind the free slot `i` to the concrete value `v`, trailing it.
    pub(crate) fn set_bound(&mut self, i: usize, v: TermValue) -> (r: ())
        requires
            store_wf(old(self)@),
            i < old(self)@.slots.len(),
            old(self)@.slots[i as int] is Free,
        ensures
            store_wf(final(self)@),
            final(self)@ == record_binding(old(self)@, i as int, BindingModel::Bound(v@)),
    {
        self.slots[i] = Binding::Bound(v);
        self.trail.push(i);
        proof {
            assert(self@.trail =~= old(self)@.trail.push(i as int));
            assert(self@.preds =~= old(self)@.preds);
            self.lemma_after_record(old(self)@, i as int);
        }
    }

    /// Alias the free slot `i` to the older slot `j`, trailing it.
    pub(crate) fn set_link(&mut self, i: usize, j: usize) -> (r: ())
        requires
            store_wf(old(self)@),
            i < old(self)@.slots.len(),
            old(self)@.slots[i as int] is Free,
            j < i,
        ensures
            store_wf(final(self)@),
            final(self)@ == record_binding(old(self)@, i as int, BindingModel::Link(j as int)),
    {
        self.slots[i] = Binding::Link(j);
        self.trail.push(i);
        proof {
            assert(self@.trail =~= old(self)@.trail.push(i as int));
            assert(self@.preds =~= old(self)@.preds);
            self.lemma_after_record(old(self)@, i as int);
        }
    }

    /// After updating slot `i` away from `Free` and pushing it on the
    /// trail, the state is `record_binding` of the old state and still
    /// well-formed.
    proof fn lemma_after_record(&self, pre: StoreModel, i: int)
        requires
            store_wf(pre),
            0 <= i < pre.slots.len(),
            pre.slots[i] is Free,
            self@.slots.len() == pre.slots.len(),
            forall|k: int| 0 <= k < pre.slots.len() && k != i ==> self@.slots[k] == pre.slots[k],
            !(self@.slots[i] is Free),
            self@.slots[i] matches BindingModel::Link(j) ==> 0 <= j < i,
            self@.trail == pre.trail.push(i),
            self@.exception == pre.exception,
            self@.preds == pre.preds,
        ensures
            store_wf(self@),
            self@ == record_binding(pre, i, self@.slots[i]),
    {
        let s = self@;
        assert(s.slots =~= pre.slots.update(i, s.slots[i]));
        assert(s =~= record_binding(pre, i, s.slots[i]));
        // `i` was free, so it was not on the trail before.
        assert forall|p: int, q: int| 0 <= p < q < s.trail.len() implies s.trail[p] != s.trail[q] by {
            if q == s.trail.len() - 1 {
                assert(s.trail[q] == i);
                assert(pre.trail[p] == s.trail[p]);
                if s.trail[p] == i {
                    assert(!(pre.slots[i] is Free));
                }
            }
        }
        assert forall|p: int|
            0 <= p < s.trail.len() implies 0 <= #[trigger] s.trail[p] < s.slots.len() && !(s.slots[s.trail[p]]
            is Free) by {
            if p < s.trail.len() - 1 {
                assert(s.trail[p] == pre.trail[p]);
                if s.trail[p] != i {
                    assert(s.slots[s.trail[p]] == pre.slots[s.trail[p]]);
                }
            }
        }
        assert forall|k: int|
            0 <= k < s.slots.len() && !(#[trigger] s.slots[k] is Free) implies s.trail.contains(
            k,
        ) by {
            if k == i {
                assert(s.trail[s.trail.len() - 1] == i);
            } else {
                assert(pre.trail.contains(k));
                let p = choose|p: int| 0 <= p < pre.trail.len() && pre.trail[p] == k;
                assert(s.trail[p] == k);
            }
        }
    }
}

impl Store {
    /// Unify slot `i` with the concrete value `v`.
    pub(crate) fn unify_value(&mut self, i: usize, v: &TermValue) -> (r: bool)
        requires
            store_wf(old(self)@),
            i < old(self)@.slots.len(),
        ensures
            store_wf(final(self)@),
            final(self)@ == unify_value_model(old(self)@, i as int, v@).0,
            r == unify_value_model(old(self)@, i as int, v@).1,
    {
        let root = self.find_root(i);
        let b: Binding = self.slots[root].clone();
        match b {
            Binding::Free => {
                self.set_bound(root, v.clone());
                true
            },
            Binding::Bound(w) => w.same_value(v),
            Binding::Link(_) => {
                proof {
                    assert(false);
                }
                false
            },
        }
    }

    /// Unify the slots `i` and `j` with each other.
    pub(crate) fn unify_slots(&mut self, i: usize, j: usize) -> (r: bool)
        requires
            store_wf(old(self)@),
            i < old(self)@.slots.len(),
            j < old(self)@.slots.len(),
        ensures
            store_wf(final(self)@),
            final(self)@ == unify_slots_model(old(self)@, i as int, j as int).0,
            r == unify_slots_model(old(self)@, i as int, j as int).1,
    {
        let ri = self.find_root(i);
        let rj = self.find_root(j);
        if ri == rj {
            return true;
        }
        let bi: Binding = self.slots[ri].clone();
        let bj: Binding = self.slots[rj].clone();
        match bi {
            Binding::Free => match bj {
                Binding::Free => {
                    if rj < ri {
                        self.set_link(ri, rj);
                    } else {
                        self.set_link(rj, ri);
                    }
                    true
                },
                Binding::Bound(e) => {
                    self.set_bound(ri, e);
                    true
                },
                Binding::Link(_) => {
                    proof {
                        assert(false);
                    }
                    false
                },
            },
            Binding::Bound(d) => match bj {
                Binding::Free => {
                    self.set_bound(rj, d);
                    true
                },
                Binding::Bound(e) => d.same_value(&e),
                Binding::Link(_) => {
                    proof {
                        assert(false);
                    }
                    false
                },
            },
            Binding::Link(_) => {
                proof {
                    assert(false);
                }
                false
            },
        }
    }

    /// Rewind the trail to mark `m`, freeing every slot bound since.
    pub(crate) fn rewind_to(&mut self, m: usize) -> (r: ())
        requires
            store_wf(old(self)@),
            m <= old(self)@.trail.len(),
        ensures
            store_wf(final(self)@),
            final(self)@ == rewind_model(old(self)@, m as int),
    {
        while self.trail.len() > m
            invariant
                store_wf(old(self)@),
                m <= self@.trail.len() <= old(self)@.trail.len(),
                self@.trail == old(self)@.trail.take(self@.trail.len() as int),
                self@.slots.len() == old(self)@.slots.len(),
                forall|k: int|
                    0 <= k < self@.slots.len() ==> #[trigger] self@.slots[k] == (
                    if trailed_at_or_after(old(self)@.trail, self@.trail.len() as int, k) {
                        BindingModel::Free
                    } else {
                        old(self)@.slots[k]
                    }),
                self@.exception == old(self)@.exception,
                self@.preds == old(self)@.preds,
            decreases self@.trail.len(),
        {
            let ghost pre = self@;
            let ghost cur = self@.trail.len() as int;
            let p = self.trail.pop().unwrap();
            proof {
                assert(pre.trail[cur - 1] == old(self)@.trail[cur - 1]);
                assert(p as int == old(self)@.trail[cur - 1]);
                assert(0 <= p as int && (p as int) < old(self)@.slots.len());
            }
            self.slots[p] = Binding::Free;
            proof {
                assert(self@.trail =~= old(self)@.trail.take(cur - 1));
                assert(self@.preds =~= pre.preds);
                assert forall|k: int| 0 <= k < self@.slots.len() implies #[trigger] self@.slots[k]
                    == (if trailed_at_or_after(old(self)@.trail, cur - 1, k) {
                    BindingModel::Free
                } else {
                    old(self)@.slots[k]
                }) by {
                    if k == p as int {
                        assert(trailed_at_or_after(old(self)@.trail, cur - 1, k));
                    } else {
                        assert(self@.slots[k] == pre.slots[k]);
                        if trailed_at_or_after(old(self)@.trail, cur - 1, k) {
                            let q = choose|q: int|
                                cur - 1 <= q < old(self)@.trail.len() && old(self)@.trail[q] == k;
                            assert(q != cur - 1);
                            assert(trailed_at_or_after(old(self)@.trail, cur, k));
                        } else {
                            assert(!trailed_at_or_after(old(self)@.trail, cur, k));
                        }
                    }
                }
            }
        }
        proof {
            lemma_rewind_wf(old(self)@, m as int);
            assert(self@.slots =~= rewind_model(old(self)@, m as int).slots);
            assert(self@ =~= rewind_model(old(self)@, m as int));
        }
    }
}

/// Rewinding a well-formed state leaves a well-formed state.
pub proof fn lemma_rewind_wf(s: StoreModel, m: int)
    requires
        store_wf(s),
        0 <= m <= s.trail.len(),
    ensures
        store_wf(rewind_model(s, m)),
{
    let s2 = rewind_model(s, m);
    assert forall|i: int|
        0 <= i < s2.slots.len() implies (#[trigger] s2.slots[i] matches BindingModel::Link(j) ==> 0
        <= j < i) by {
        if !trailed_at_or_after(s.trail, m, i) {
            assert(s2.slots[i] == s.slots[i]);
        }
    }
    assert forall|p: int|
        0 <= p < s2.trail.len() implies 0 <= #[trigger] s2.trail[p] < s2.slots.len() && !(
        s2.slots[s2.trail[p]] is Free) by {
        assert(s2.trail[p] == s.trail[p]);
        let e = s.trail[p];
        if trailed_at_or_after(s.trail, m, e) {
            let q = choose|q: int| m <= q < s.trail.len() && s.trail[q] == e;
            assert(s.trail[p] == s.trail[q] && p < m <= q);
            assert(false);
        }
        assert(s2.slots[e] == s.slots[e]);
    }
    assert forall|i: int|
        0 <= i < s2.slots.len() && !(#[trigger] s2.slots[i] is Free) implies s2.trail.contains(
        i,
    ) by {
        assert(!trailed_at_or_after(s.trail, m, i));
        assert(s2.slots[i] == s.slots[i]);
        assert(s.trail.contains(i));
        let q = choose|q: int| 0 <= q < s.trail.len() && s.trail[q] == i;
        assert(q < m);
        assert(s2.trail[q] == i);
    }
}

impl Store {
    /// Whether an engine-level exception is pending.
    pub(crate) fn has_exception(&self) -> (r: bool)
        ensures
            r == (self@.exception is Some),
    {
        self.exception.is_some()
    }

    /// The pending exception value, if any; it stays pending.
    pub(crate) fn exception_value(&self) -> (r: Option<TermValue>)
        ensures
            r is Some <==> self@.exception is Some,
            r matches Some(v) ==> self@.exception == Some(v@),
    {
        match &self.exception {
            Some(v) => Some(v.clone()),
            None => None,
        }
    }

    /// Raise `v` as the pending exception, replacing any earlier one.
    pub(crate) fn set_exception(&mut self, v: TermValue) -> (r: ())
        requires
            store_wf(old(self)@),
        ensures
            store_wf(final(self)@),
            final(self)@ == (StoreModel { exception: Some(v@), ..old(self)@ }),
    {
        self.exception = Some(v);
        proof {
            assert(self@ =~= (StoreModel { exception: Some(v@), ..old(self)@ }));
        }
    }

    /// Clear the pending exception.
    pub(crate) fn clear_exception(&mut self) -> (r: ())
        requires
            store_wf(old(self)@),
        ensures
            store_wf(final(self)@),
            final(self)@ == (StoreModel { exception: None, ..old(self)@ }),
    {
        self.exception = None;
        proof {
            assert(self@ =~= (StoreModel { exception: None, ..old(self)@ }));
        }
    }
}

impl Store {
    /// Resolve the identity triple to its table handle, interning it first
    /// if it has not been looked up yet. Resolution is idempotent: a second
    /// lookup of the same triple returns the same handle and leaves the
    /// state untouched.
    pub(crate) fn intern_pred(&mut self, module: &str, name: &str, arity: u16) -> (h: usize)
        requires
            store_wf(old(self)@),
        ensures
            store_wf(final(self)@),
            find_pred(old(self)@.preds, module@, name@, arity) >= 0 ==> final(self)@ == old(self)@
                && h as int == find_pred(old(self)@.preds, module@, name@, arity),
            find_pred(old(self)@.preds, module@, name@, arity) == -1 ==> final(self)@ == (StoreModel {
                preds: old(self)@.preds.push(
                    PredModel { module: module@, name: name@, arity, behavior: None },
                ),
                ..old(self)@
            }) && h as int == old(self)@.preds.len(),
            h < final(self)@.preds.len(),
            pred_key_matches(final(self)@.preds[h as int], module@, name@, arity),
            h as int == find_pred(final(self)@.preds, module@, name@, arity),
    {
        proof {
            lemma_find_pred_properties(self@.preds, module@, name@, arity);
        }
        let ms = String::from_str(module);
        let ns = String::from_str(name);
        let mut k: usize = self.preds.len();
        proof {
            assert(self@.preds.take(k as int) =~= self@.preds);
        }
        while k > 0
            invariant
                store_wf(self@),
                self@ == old(self)@,
                ms@ == module@,
                ns@ == name@,
                k <= self@.preds.len(),
                find_pred(self@.preds, module@, name@, arity) == find_pred(
                    self@.preds.take(k as int),
                    module@,
                    name@,
                    arity,
                ),
            decreases k,
        {
            k = k - 1;
            let e = &self.preds[k];
            let hit = e.arity == arity && e.module == ms && e.name == ns;
            proof {
                assert(self@.preds[k as int] == e@);
                assert(self@.preds.take(k as int + 1).last() == self@.preds[k as int]);
                assert(hit == pred_key_matches(self@.preds[k as int], module@, name@, arity));
            }
            if hit {
                proof {
                    assert(find_pred(self@.preds.take(k as int + 1), module@, name@, arity)
                        == k as int);
                }
                return k;
            }
            proof {
                assert(self@.preds.take(k as int + 1).drop_last() =~= self@.preds.take(k as int));
            }
        }
        proof {
            assert(self@.preds.take(0) =~= Seq::<PredModel>::empty());
            assert(find_pred(self@.preds, module@, name@, arity) == -1);
        }
        let h = self.preds.len();
        self.preds.push(PredEntry { module: ms, name: ns, arity, behavior: None });
        proof {
            let entry = PredModel { module: module@, name: name@, arity, behavior: None };
            assert(self@.preds =~= old(self)@.preds.push(entry));
            assert(self@.slots =~= old(self)@.slots);
            assert(self@.trail =~= old(self)@.trail);
            assert(self@ =~= (StoreModel { preds: old(self)@.preds.push(entry), ..old(self)@ }));
            assert(self@.preds.last() == entry);
            assert(find_pred(self@.preds, module@, name@, arity) == h as int);
            assert forall|k2: int|
                0 <= k2 < self@.preds.len() implies ((#[trigger] self@.preds[k2].behavior) matches
            Some(b) ==> (b matches BehaviorModel::UnifyArg(_) ==> self@.preds[k2].arity >= 1)) by {
                if k2 < self@.preds.len() - 1 {
                    assert(self@.preds[k2] == old(self)@.preds[k2]);
                }
            }
        }
        h
    }

    /// Register what the predicate behind handle `h` does when called.
    pub(crate) fn set_behavior(&mut self, h: usize, b: PredicateBehavior) -> (r: ())
        requires
            store_wf(old(self)@),
            h < old(self)@.preds.len(),
            b matches PredicateBehavior::UnifyArg(_) ==> old(self)@.preds[h as int].arity >= 1,
        ensures
            store_wf(final(self)@),
            final(self)@ == (StoreModel {
                preds: old(self)@.preds.update(
                    h as int,
                    PredModel { behavior: Some(b@), ..old(self)@.preds[h as int] },
                ),
                ..old(self)@
            }),
    {
        let ghost bm = b@;
        let e = &mut self.preds[h];
        e.behavior = Some(b);
        proof {
            let target = (StoreModel {
                preds: old(self)@.preds.update(
                    h as int,
                    PredModel { behavior: Some(bm), ..old(self)@.preds[h as int] },
                ),
                ..old(self)@
            });
            assert(self@.preds =~= target.preds);
            assert(self@.slots =~= target.slots);
            assert(self@.trail =~= target.trail);
            assert(self@ =~= target);
            assert forall|k2: int|
                0 <= k2 < self@.preds.len() implies ((#[trigger] self@.preds[k2].behavior) matches
            Some(bb) ==> (bb matches BehaviorModel::UnifyArg(_) ==> self@.preds[k2].arity >= 1)) by {
                if k2 != h as int {
                    assert(self@.preds[k2] == old(self)@.preds[k2]);
                }
            }
        }
    }

    /// The registered behavior of the predicate behind handle `h`, if any.
    pub(crate) fn pred_behavior(&self, h: usize) -> (b: Option<PredicateBehavior>)
        requires
            h < self@.preds.len(),
        ensures
            b is Some <==> self@.preds[h as int].behavior is Some,
            b matches Some(x) ==> self@.preds[h as int].behavior == Some(x@),
    {
        match &self.preds[h].behavior {
            Some(x) => Some(x.clone()),
            None => None,
        }
    }

    /// The name recorded for the predicate behind handle `h`.
    pub(crate) fn pred_name(&self, h: usize) -> (n: String)
        requires
            h < self@.preds.len(),
        ensures
            n@ == self@.preds[h as int].name,
    {
        self.preds[h].name.clone()
    }

}

} // verus!
