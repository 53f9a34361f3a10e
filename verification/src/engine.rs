//! Engine handles and the per-thread activation protocol.
//!
//! An engine must be activated on a thread before any of its state can be
//! touched, and at most one engine may be active on a thread at a time.
//! The activation slot of a thread is an explicit [`Registry`] value, so
//! the protocol is checkable and tests can reset it deterministically: the
//! host keeps one registry per thread and passes it to every activation
//! and deactivation.
//!
//! Activating moves the engine into an [`Activation`] token; turning the
//! token into a [`Context`] and eventually back again guarantees that the
//! engine is torn down in order: a context with open scopes cannot be
//! deactivated, and a deactivated engine cannot be touched.

use vstd::prelude::*;
use crate::context::Context;
use crate::store::{store_wf, Store, StoreModel};

verus! {

/// The mathematical content of a thread's activation slot.
pub struct RegistryModel {
    /// The engine currently active on this thread, if any.
    pub active: Option<u64>,
    /// The next engine identifier to hand out.
    pub next_id: u64,
}

/// A thread's activation slot: which engine, if any, is active on it, and
/// the supply of fresh engine identifiers.
pub struct Registry {
    active: Option<u64>,
    next_id: u64,
}

impl View for Registry {
    type V = RegistryModel;

    closed spec fn view(&self) -> RegistryModel {
        RegistryModel { active: self.active, next_id: self.next_id }
    }
}

impl Registry {
    /// A fresh slot: no engine active, no identifiers handed out yet.
    pub fn new() -> (r: Registry)
        ensures
            r@.active is None,
            r@.next_id == 0,
    {
        Registry { active: None, next_id: 0 }
    }

    /// The engine currently active on this thread, if any.
    pub fn active_engine(&self) -> (r: Option<u64>)
        ensures
            r == self@.active,
    {
        self.active
    }
}

/// One idle engine instance: its identity and its whole state.
#[derive(Debug)]
pub struct Engine {
    id: u64,
    store: Store,
}

impl Engine {
    /// This engine's identity.
    pub closed spec fn id_of(&self) -> u64 {
        self.id
    }

    /// This engine's state.
    pub closed spec fn store_model(&self) -> StoreModel {
        self.store@
    }

    /// An engine is well-formed when its state is.
    pub open spec fn wf(&self) -> bool {
        store_wf(self.store_model())
    }

    /// Create a fresh engine, registered under a fresh identity.
    pub fn new(reg: &mut Registry) -> (e: Engine)
        requires
            old(reg)@.next_id < u64::MAX,
        ensures
            e.wf(),
            e.id_of() == old(reg)@.next_id,
            e.store_model().slots.len() == 0,
            e.store_model().trail.len() == 0,
            e.store_model().exception is None,
            e.store_model().preds.len() == 0,
            final(reg)@.active == old(reg)@.active,
            final(reg)@.next_id == old(reg)@.next_id + 1,
    {
        let id = reg.next_id;
        reg.next_id = reg.next_id + 1;
        Engine { id, store: Store::empty() }
    }

    /// This engine's identity.
    pub fn engine_id(&self) -> (r: u64)
        ensures
            r == self.id_of(),
    {
        self.id
    }

    /// Activate this engine on the thread owning `reg`.
    ///
    /// Rejected — the engine is handed back untouched and the slot is left
    /// alone — when another engine is already active on the thread;
    /// activating over a live activation is a programming error the
    /// protocol refuses. After a deactivation the slot is free again and
    /// activation succeeds.
    pub fn activate(self, reg: &mut Registry) -> (r: Result<Activation, Engine>)
        requires
            self.wf(),
        ensures
            old(reg)@.active is None ==> (r matches Ok(a) && a.wf() && a.id_of() == self.id_of()
                && a.store_model() == self.store_model() && final(reg)@.active == Some(
                self.id_of(),
            ) && final(reg)@.next_id == old(reg)@.next_id),
            old(reg)@.active is Some ==> (r matches Err(e) && e.wf() && e.id_of() == self.id_of()
                && e.store_model() == self.store_model() && final(reg)@ == old(reg)@),
    {
        match reg.active {
            None => {
                reg.active = Some(self.id);
                let Engine { id, store } = self;
                Ok(Activation { id, store })
            },
            Some(_) => Err(self),
        }
    }
}

/// Proof that an engine is the one currently active on the calling thread.
///
/// Held for the whole time the engine is used; released — turning the
/// engine idle again — by [`Activation::deactivate`].
pub struct Activation {
    id: u64,
    store: Store,
}

impl Activation {
    /// The identity of the activated engine.
    pub closed spec fn id_of(&self) -> u64 {
        self.id
    }

    /// The activated engine's state.
    pub closed spec fn store_model(&self) -> StoreModel {
        self.store@
    }

    /// An activation is well-formed when the engine state it holds is.
    pub open spec fn wf(&self) -> bool {
        store_wf(self.store_model())
    }

    /// The identity of the activated engine.
    pub fn engine_id(&self) -> (r: u64)
        ensures
            r == self.id_of(),
    {
        self.id
    }

    /// Turn the activation into the base context, the capability all
    /// engine operations go through.
    pub fn into_context(self) -> (c: Context)
        requires
            self.wf(),
        ensures
            c.wf(),
            c@.engine == self.id_of(),
            c@.store == self.store_model(),
            c@.scopes.len() == 0,
    {
        Context::from_store(self.id, self.store)
    }

    /// Release the activation: the engine becomes idle and the thread's
    /// slot becomes free, so another engine may be activated.
    pub fn deactivate(self, reg: &mut Registry) -> (e: Engine)
        requires
            self.wf(),
            old(reg)@.active == Some(self.id_of()),
        ensures
            e.wf(),
            e.id_of() == self.id_of(),
            e.store_model() == self.store_model(),
            final(reg)@.active is None,
            final(reg)@.next_id == old(reg)@.next_id,
    {
        reg.active = None;
        let Activation { id, store } = self;
        Engine { id, store }
    }
}

impl Context {
    /// Return to the bare activation. All scopes must have been retired:
    /// the stack discipline does not allow tearing an activation down over
    /// open frames or queries.
    pub fn into_activation(self) -> (a: Activation)
        requires
            self.wf(),
            self@.scopes.len() == 0,
        ensures
            a.wf(),
            a.id_of() == self@.engine,
            a.store_model() == self@.store,
    {
        let (id, store) = self.release_store();
        Activation { id, store }
    }
}

} // verus!
