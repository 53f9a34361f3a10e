//! Term values and term handles.
//!
//! A [`Term`] is a handle to one slot on the engine's term stack. A fresh
//! term is an unbound variable; unification may bind it to a concrete value
//! or alias it with another variable. The mathematical content of a concrete
//! value is a [`Datum`]; its executable carrier is [`TermValue`].

use vstd::prelude::*;
use crate::context::{Context, CtxModel};
use crate::store::{unify_slots_model, unify_value_model, value_at, StoreModel};

verus! {

/// The mathematical content of a concrete term value.
pub enum Datum {
    Boolean(bool),
    UInt(u64),
    Int(i64),
    Text(Seq<char>),
    Atom(Seq<char>),
}

/// A concrete value that a term slot can be bound to.
///
/// `Text` is an engine string; `Atom` is an interned symbol. The two unify
/// only with values of their own kind.
#[derive(Debug)]
pub enum TermValue {
    Boolean(bool),
    UInt(u64),
    Int(i64),
    Text(String),
    Atom(String),
}

impl View for TermValue {
    type V = Datum;

    open spec fn view(&self) -> Datum {
        match self {
            TermValue::Boolean(b) => Datum::Boolean(*b),
            TermValue::UInt(n) => Datum::UInt(*n),
            TermValue::Int(n) => Datum::Int(*n),
            TermValue::Text(s) => Datum::Text(s@),
            TermValue::Atom(s) => Datum::Atom(s@),
        }
    }
}

impl Clone for TermValue {
    fn clone(&self) -> (res: Self)
        ensures
            res@ == self@,
    {
        match self {
            TermValue::Boolean(b) => TermValue::Boolean(*b),
            TermValue::UInt(n) => TermValue::UInt(*n),
            TermValue::Int(n) => TermValue::Int(*n),
            TermValue::Text(s) => TermValue::Text(s.clone()),
            TermValue::Atom(s) => TermValue::Atom(s.clone()),
        }
    }
}

impl TermValue {
    /// Value equality: two term values unify exactly when this holds.
    pub fn same_value(&self, other: &TermValue) -> (r: bool)
        ensures
            r == (self@ == other@),
    {
        match self {
            TermValue::Boolean(a) => match other {
                TermValue::Boolean(b) => *a == *b,
                _ => false,
            },
            TermValue::UInt(a) => match other {
                TermValue::UInt(b) => *a == *b,
                _ => false,
            },
            TermValue::Int(a) => match other {
                TermValue::Int(b) => *a == *b,
                _ => false,
            },
            TermValue::Text(a) => match other {
                TermValue::Text(b) => *a == *b,
                _ => false,
            },
            TermValue::Atom(a) => match other {
                TermValue::Atom(b) => *a == *b,
                _ => false,
            },
        }
    }
}

/// An interned symbol.
///
/// Atoms unify only with equal atoms, and are distinct from engine
/// strings of the same spelling.
pub struct Atom {
    name: String,
}

impl Atom {
    /// This atom's spelling.
    pub closed spec fn name_of(&self) -> Seq<char> {
        self.name@
    }

    pub fn new(name: &str) -> (a: Atom)
        ensures
            a.name_of() == name@,
    {
        Atom { name: String::from_str(name) }
    }

    /// This atom's spelling.
    pub fn name(&self) -> (r: &str)
        ensures
            r@ == self.name_of(),
    {
        self.name.as_str()
    }
}

/// A handle to one slot of the term stack of one engine.
///
/// Handles are plain values; they stay stable for the lifetime of the
/// activation that created them. Every operation that reads or writes the
/// slot takes the owning engine's context and checks, by contract, that the
/// term belongs to that engine.
#[derive(Clone, Copy)]
pub struct Term {
    slot: usize,
    engine: u64,
}

impl Term {
    /// The index of the slot this handle designates.
    pub closed spec fn slot_id(self) -> int {
        self.slot as int
    }

    /// The identifier of the engine this handle was created on.
    pub closed spec fn engine_of(self) -> u64 {
        self.engine
    }

    pub(crate) fn new(slot: usize, engine: u64) -> (t: Term)
        ensures
            t.slot_id() == slot as int,
            t.engine_of() == engine,
    {
        Term { slot, engine }
    }

    /// The raw slot index behind this handle.
    pub fn term_ptr(&self) -> (r: usize)
        ensures
            r as int == self.slot_id(),
    {
        self.slot
    }

    /// The identifier of the engine this handle was created on.
    pub fn engine_id(&self) -> (r: u64)
        ensures
            r == self.engine_of(),
    {
        self.engine
    }

    /// Unify this term with a value.
    ///
    /// Returns whether the unification succeeded; on success the binding
    /// is recorded on the trail, so the enclosing scope can undo it.
    pub fn unify<U: Unifiable>(&self, context: &mut Context, value: U) -> (r: bool)
        requires
            old(context).wf(),
            self.engine_of() == old(context)@.engine,
            self.slot_id() < old(context)@.store.slots.len(),
            value.unify_req(old(context)@),
        ensures
            final(context).wf(),
            final(context)@.engine == old(context)@.engine,
            final(context)@.scopes == old(context)@.scopes,
            (final(context)@.store, r) == value.unify_model(old(context)@.store, self.slot_id()),
    {
        value.unify(context, self)
    }

    /// Hand the engine string this term denotes, if any, to `func`, and
    /// return what `func` makes of it.
    pub fn get_str<R, F: Fn(Option<&str>) -> R>(&self, context: &Context, func: F) -> (r: R)
        requires
            context.wf(),
            self.engine_of() == context@.engine,
            self.slot_id() < context@.store.slots.len(),
            forall|s: Option<&str>| #[trigger] func.requires((s,)),
        ensures
            value_at(context@.store.slots, self.slot_id()) matches Some(Datum::Text(t))
                ==> exists|s: &str| s@ == t && func.ensures((Some(s),), r),
            !(value_at(context@.store.slots, self.slot_id()) matches Some(Datum::Text(t)))
                ==> func.ensures((None,), r),
    {
        match context.read_slot(self.term_ptr()) {
            Some(TermValue::Text(s)) => {
                let out = func(Some(s.as_str()));
                out
            },
            _ => func(None),
        }
    }

    /// Hand the atom this term denotes, if any, to `func`, and return
    /// what `func` makes of it.
    pub fn get_atom<R, F: Fn(Option<&Atom>) -> R>(&self, context: &Context, func: F) -> (r: R)
        requires
            context.wf(),
            self.engine_of() == context@.engine,
            self.slot_id() < context@.store.slots.len(),
            forall|a: Option<&Atom>| #[trigger] func.requires((a,)),
        ensures
            value_at(context@.store.slots, self.slot_id()) matches Some(Datum::Atom(t))
                ==> exists|a: &Atom| a.name_of() == t && func.ensures((Some(a),), r),
            !(value_at(context@.store.slots, self.slot_id()) matches Some(Datum::Atom(t)))
                ==> func.ensures((None,), r),
    {
        match context.read_slot(self.term_ptr()) {
            Some(TermValue::Atom(name)) => {
                let atom = Atom { name };
                let out = func(Some(&atom));
                proof {
                    let a = &atom;
                    assert(value_at(context@.store.slots, self.slot_id()) == Some(
                        Datum::Atom(a.name_of()),
                    ));
                    assert(func.ensures((Some(a),), out));
                }
                out
            },
            _ => func(None),
        }
    }

    /// Read this term back as a value of type `G`, if it denotes one.
    pub fn get<G: TermGetable>(&self, context: &Context) -> (r: Option<G>)
        requires
            context.wf(),
            self.engine_of() == context@.engine,
            self.slot_id() < context@.store.slots.len(),
        ensures
            G::got(value_at(context@.store.slots, self.slot_id()), r),
    {
        G::get(context, self)
    }
}

/// Trait for term unification: anything that a term can be unified with.
///
/// Each implementation states, as `unify_model`, exactly what unifying a
/// slot with the value does to the engine state and when it succeeds.
pub trait Unifiable: Sized {
    /// What this value asks of the context beyond a valid target term.
    spec fn unify_req(self, c: CtxModel) -> bool;

    /// The state transition this unification performs, and its success.
    spec fn unify_model(self, s: StoreModel, slot: int) -> (StoreModel, bool);

    /// Unify `term` with this value in its engine's context.
    fn unify(self, context: &mut Context, term: &Term) -> (r: bool)
        requires
            old(context).wf(),
            term.engine_of() == old(context)@.engine,
            term.slot_id() < old(context)@.store.slots.len(),
            self.unify_req(old(context)@),
        ensures
            final(context).wf(),
            final(context)@.engine == old(context)@.engine,
            final(context)@.scopes == old(context)@.scopes,
            (final(context)@.store, r) == self.unify_model(old(context)@.store, term.slot_id()),
    ;
}

/// Trait for reading a term back as a host value.
///
/// Each implementation states, as `got`, which readings are faithful to
/// the value the term denotes: a term denoting a value of the wrong kind
/// — or denoting none — reads back as `None`.
pub trait TermGetable: Sized {
    /// Whether reading a term denoting `d` may yield `r`.
    spec fn got(d: Option<Datum>, r: Option<Self>) -> bool;

    /// Read `term` back in its engine's context.
    fn get(context: &Context, term: &Term) -> (r: Option<Self>)
        requires
            context.wf(),
            term.engine_of() == context@.engine,
            term.slot_id() < context@.store.slots.len(),
        ensures
            Self::got(value_at(context@.store.slots, term.slot_id()), r),
    ;
}

impl Unifiable for bool {
    open spec fn unify_req(self, c: CtxModel) -> bool {
        true
    }

    open spec fn unify_model(self, s: StoreModel, slot: int) -> (StoreModel, bool) {
        unify_value_model(s, slot, Datum::Boolean(self))
    }

    fn unify(self, context: &mut Context, term: &Term) -> (r: bool) {
        context.unify_slot_value(term.term_ptr(), &TermValue::Boolean(self))
    }
}

impl Unifiable for u64 {
    open spec fn unify_req(self, c: CtxModel) -> bool {
        true
    }

    open spec fn unify_model(self, s: StoreModel, slot: int) -> (StoreModel, bool) {
        unify_value_model(s, slot, Datum::UInt(self))
    }

    fn unify(self, context: &mut Context, term: &Term) -> (r: bool) {
        context.unify_slot_value(term.term_ptr(), &TermValue::UInt(self))
    }
}

impl Unifiable for i64 {
    open spec fn unify_req(self, c: CtxModel) -> bool {
        true
    }

    open spec fn unify_model(self, s: StoreModel, slot: int) -> (StoreModel, bool) {
        unify_value_model(s, slot, Datum::Int(self))
    }

    fn unify(self, context: &mut Context, term: &Term) -> (r: bool) {
        context.unify_slot_value(term.term_ptr(), &TermValue::Int(self))
    }
}

impl Unifiable for &str {
    open spec fn unify_req(self, c: CtxModel) -> bool {
        true
    }

    open spec fn unify_model(self, s: StoreModel, slot: int) -> (StoreModel, bool) {
        unify_value_model(s, slot, Datum::Text(self@))
    }

    fn unify(self, context: &mut Context, term: &Term) -> (r: bool) {
        context.unify_slot_value(term.term_ptr(), &TermValue::Text(String::from_str(self)))
    }
}

impl Unifiable for &Atom {
    open spec fn unify_req(self, c: CtxModel) -> bool {
        true
    }

    open spec fn unify_model(self, s: StoreModel, slot: int) -> (StoreModel, bool) {
        unify_value_model(s, slot, Datum::Atom(self.name_of()))
    }

    fn unify(self, context: &mut Context, term: &Term) -> (r: bool) {
        context.unify_slot_value(term.term_ptr(), &TermValue::Atom(self.name.clone()))
    }
}

impl Unifiable for &Term {
    open spec fn unify_req(self, c: CtxModel) -> bool {
        self.engine_of() == c.engine && self.slot_id() < c.store.slots.len()
    }

    open spec fn unify_model(self, s: StoreModel, slot: int) -> (StoreModel, bool) {
        unify_slots_model(s, slot, self.slot_id())
    }

    fn unify(self, context: &mut Context, term: &Term) -> (r: bool) {
        context.unify_slot_slot(term.term_ptr(), self.term_ptr())
    }
}

impl TermGetable for bool {
    open spec fn got(d: Option<Datum>, r: Option<Self>) -> bool {
        match d {
            Some(Datum::Boolean(b)) => r == Some(b),
            _ => r is None,
        }
    }

    fn get(context: &Context, term: &Term) -> (r: Option<Self>) {
        match context.read_slot(term.term_ptr()) {
            Some(TermValue::Boolean(b)) => Some(b),
            _ => None,
        }
    }
}

impl TermGetable for u64 {
    open spec fn got(d: Option<Datum>, r: Option<Self>) -> bool {
        match d {
            Some(Datum::UInt(n)) => r == Some(n),
            _ => r is None,
        }
    }

    fn get(context: &Context, term: &Term) -> (r: Option<Self>) {
        match context.read_slot(term.term_ptr()) {
            Some(TermValue::UInt(n)) => Some(n),
            _ => None,
        }
    }
}

impl TermGetable for i64 {
    open spec fn got(d: Option<Datum>, r: Option<Self>) -> bool {
        match d {
            Some(Datum::Int(n)) => r == Some(n),
            _ => r is None,
        }
    }

    fn get(context: &Context, term: &Term) -> (r: Option<Self>) {
        match context.read_slot(term.term_ptr()) {
            Some(TermValue::Int(n)) => Some(n),
            _ => None,
        }
    }
}

impl TermGetable for String {
    open spec fn got(d: Option<Datum>, r: Option<Self>) -> bool {
        match d {
            Some(Datum::Text(t)) => r matches Some(x) && x@ == t,
            _ => r is None,
        }
    }

    fn get(context: &Context, term: &Term) -> (r: Option<Self>) {
        match context.read_slot(term.term_ptr()) {
            Some(TermValue::Text(t)) => Some(t),
            _ => None,
        }
    }
}

impl TermGetable for Atom {
    open spec fn got(d: Option<Datum>, r: Option<Self>) -> bool {
        match d {
            Some(Datum::Atom(t)) => r matches Some(a) && a.name_of() == t,
            _ => r is None,
        }
    }

    fn get(context: &Context, term: &Term) -> (r: Option<Self>) {
        match context.read_slot(term.term_ptr()) {
            Some(TermValue::Atom(t)) => Some(Atom { name: t }),
            _ => None,
        }
    }
}

impl TermGetable for TermValue {
    open spec fn got(d: Option<Datum>, r: Option<Self>) -> bool {
        match d {
            Some(v) => r matches Some(w) && w@ == v,
            None => r is None,
        }
    }

    fn get(context: &Context, term: &Term) -> (r: Option<Self>) {
        context.read_slot(term.term_ptr())
    }
}

} // verus!
