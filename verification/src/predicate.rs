//! Predicate identity and behavior.
//!
//! A predicate is identified by its (module, name, arity) triple. Resolving
//! the triple interns it in the engine's predicate table and yields a stable
//! handle; predicate identities never change once looked up, which is what
//! makes process-wide caching of resolved handles sound.
//!
//! The engine proper resolves clauses and performs the actual search; this
//! layer models only a predicate's observable solving behavior, which is
//! what the query lifecycle needs to be specified against.

use vstd::prelude::*;
use crate::term::{Datum, TermValue};

verus! {

/// The mathematical content of a registered predicate behavior.
pub enum BehaviorModel {
    Succeed,
    SucceedTimes(u64),
    Fail,
    UnifyArg(Datum),
    Raise(Datum),
}

/// The observable solving behavior of a defined predicate.
#[derive(Debug)]
pub enum PredicateBehavior {
    /// Exactly one solution, reported as deterministic (no more follow).
    Succeed,
    /// The given number of solutions, each reported as possibly-more;
    /// asking again after the last one fails logically.
    SucceedTimes(u64),
    /// No solutions: every call fails logically.
    Fail,
    /// One deterministic solution that unifies the first argument with the
    /// given value; the call fails logically when that unification fails.
    /// Only predicates of arity at least one may behave this way.
    UnifyArg(TermValue),
    /// Raises the given value as an engine-level exception.
    Raise(TermValue),
}

impl View for PredicateBehavior {
    type V = BehaviorModel;

    open spec fn view(&self) -> BehaviorModel {
        match self {
            PredicateBehavior::Succeed => BehaviorModel::Succeed,
            PredicateBehavior::SucceedTimes(n) => BehaviorModel::SucceedTimes(*n),
            PredicateBehavior::Fail => BehaviorModel::Fail,
            PredicateBehavior::UnifyArg(v) => BehaviorModel::UnifyArg(v@),
            PredicateBehavior::Raise(v) => BehaviorModel::Raise(v@),
        }
    }
}

impl Clone for PredicateBehavior {
    fn clone(&self) -> (res: Self)
        ensures
            res@ == self@,
    {
        match self {
            PredicateBehavior::Succeed => PredicateBehavior::Succeed,
            PredicateBehavior::SucceedTimes(n) => PredicateBehavior::SucceedTimes(*n),
            PredicateBehavior::Fail => PredicateBehavior::Fail,
            PredicateBehavior::UnifyArg(v) => PredicateBehavior::UnifyArg(v.clone()),
            PredicateBehavior::Raise(v) => PredicateBehavior::Raise(v.clone()),
        }
    }
}

/// The mathematical content of one predicate table entry.
pub struct PredModel {
    pub module: Seq<char>,
    pub name: Seq<char>,
    pub arity: u16,
    pub behavior: Option<BehaviorModel>,
}

/// One entry of the engine's predicate table.
#[derive(Debug)]
pub struct PredEntry {
    pub module: String,
    pub name: String,
    pub arity: u16,
    pub behavior: Option<PredicateBehavior>,
}

impl View for PredEntry {
    type V = PredModel;

    open spec fn view(&self) -> PredModel {
        PredModel {
            module: self.module@,
            name: self.name@,
            arity: self.arity,
            behavior: match self.behavior {
                Some(b) => Some(b@),
                None => None,
            },
        }
    }
}

/// Whether a table entry carries the given identity triple.
pub open spec fn pred_key_matches(
    p: PredModel,
    module: Seq<char>,
    name: Seq<char>,
    arity: u16,
) -> bool {
    p.module == module && p.name == name && p.arity == arity
}

/// The handle a lookup of the triple yields: the index of the matching
/// table entry, or -1 when the triple is not interned yet. Entries are only
/// ever appended, so a handle, once found, designates the same entry forever.
pub open spec fn find_pred(
    preds: Seq<PredModel>,
    module: Seq<char>,
    name: Seq<char>,
    arity: u16,
) -> int
    decreases preds.len(),
{
    if preds.len() == 0 {
        -1
    } else if pred_key_matches(preds.last(), module, name, arity) {
        preds.len() - 1
    } else {
        find_pred(preds.drop_last(), module, name, arity)
    }
}

/// A found handle is in range and matches; a miss means no entry matches.
pub proof fn lemma_find_pred_properties(
    preds: Seq<PredModel>,
    module: Seq<char>,
    name: Seq<char>,
    arity: u16,
)
    ensures
        find_pred(preds, module, name, arity) == -1 || (0 <= find_pred(preds, module, name, arity)
            < preds.len() && pred_key_matches(
            preds[find_pred(preds, module, name, arity)],
            module,
            name,
            arity,
        )),
        find_pred(preds, module, name, arity) == -1 ==> forall|k: int|
            0 <= k < preds.len() ==> !pred_key_matches(#[trigger] preds[k], module, name, arity),
    decreases preds.len(),
{
    if preds.len() == 0 {
    } else if pred_key_matches(preds.last(), module, name, arity) {
    } else {
        lemma_find_pred_properties(preds.drop_last(), module, name, arity);
        assert forall|k: int|
            find_pred(preds, module, name, arity) == -1 && 0 <= k
                < preds.len() implies !pred_key_matches(
            #[trigger] preds[k],
            module,
            name,
            arity,
        ) by {
            if k < preds.len() - 1 {
                assert(preds.drop_last()[k] == preds[k]);
            }
        }
    }
}

/// Lookup only reads the identity triples: two tables whose entries match
/// the key at the same positions give the same handle.
pub proof fn lemma_find_pred_keys_only(
    a: Seq<PredModel>,
    b: Seq<PredModel>,
    module: Seq<char>,
    name: Seq<char>,
    arity: u16,
)
    requires
        a.len() == b.len(),
        forall|k: int|
            0 <= k < a.len() ==> (pred_key_matches(#[trigger] a[k], module, name, arity)
                <==> pred_key_matches(#[trigger] b[k], module, name, arity)),
    ensures
        find_pred(a, module, name, arity) == find_pred(b, module, name, arity),
    decreases a.len(),
{
    if a.len() > 0 {
        assert(a.last() == a[a.len() - 1]);
        assert(b.last() == b[b.len() - 1]);
        if !pred_key_matches(a.last(), module, name, arity) {
            assert forall|k: int|
                0 <= k < a.drop_last().len() implies (pred_key_matches(
                #[trigger] a.drop_last()[k],
                module,
                name,
                arity,
            ) <==> pred_key_matches(#[trigger] b.drop_last()[k], module, name, arity)) by {
                assert(a.drop_last()[k] == a[k]);
                assert(b.drop_last()[k] == b[k]);
            }
            lemma_find_pred_keys_only(a.drop_last(), b.drop_last(), module, name, arity);
        }
    }
}

/// The state transition of resolving an identity triple: the table entry
/// found, or a fresh undefined entry appended for it.
pub open spec fn intern_model(
    s: Seq<PredModel>,
    module: Seq<char>,
    name: Seq<char>,
    arity: u16,
) -> (Seq<PredModel>, int) {
    let f = find_pred(s, module, name, arity);
    if f >= 0 {
        (s, f)
    } else {
        (s.push(PredModel { module, name, arity, behavior: None }), s.len() as int)
    }
}

/// Resolution is idempotent: resolving a triple a second time finds what
/// the first resolution interned, returns the very same handle, and leaves
/// the table untouched. Redundant resolutions — including racy ones that
/// interleave on the same table — therefore all converge on one handle,
/// and the underlying lookup is performed at most once per entry.
pub proof fn lemma_intern_idempotent(
    s: Seq<PredModel>,
    module: Seq<char>,
    name: Seq<char>,
    arity: u16,
)
    ensures
        intern_model(
            intern_model(s, module, name, arity).0,
            module,
            name,
            arity,
        ) == intern_model(s, module, name, arity),
{
    let f = find_pred(s, module, name, arity);
    if f < 0 {
        let s1 = s.push(PredModel { module, name, arity, behavior: None });
        assert(s1.last() == PredModel { module, name, arity, behavior: None });
        assert(find_pred(s1, module, name, arity) == s.len());
    }
}

/// A module: the namespace a query is posed in.
///
/// Predicate identities carry their module name; the module passed when a
/// query is opened is the context the engine resolves the goal's own calls
/// in, which lies beyond this layer.
pub struct Module {
    name: String,
}

impl Module {
    /// This module's name.
    pub closed spec fn name_of(&self) -> Seq<char> {
        self.name@
    }

    pub fn new(name: &str) -> (m: Module)
        ensures
            m.name_of() == name@,
    {
        Module { name: String::from_str(name) }
    }
}

/// A resolved predicate: an identity triple bound to its table handle.
///
/// Immutable once resolved; the handle stays valid for the life of the
/// engine because table entries are only ever appended.
#[derive(Clone, Copy)]
pub struct Predicate {
    handle: usize,
    arity: u16,
}

impl Predicate {
    /// The index of this predicate's entry in the engine's table.
    pub closed spec fn handle_id(self) -> int {
        self.handle as int
    }

    /// The arity recorded for this predicate when it was resolved.
    pub closed spec fn arity_of(self) -> u16 {
        self.arity
    }

    pub(crate) fn make(handle: usize, arity: u16) -> (p: Predicate)
        ensures
            p.handle_id() == handle as int,
            p.arity_of() == arity,
    {
        Predicate { handle, arity }
    }

    /// The raw handle of this predicate's table entry.
    pub fn predicate_ptr(&self) -> (r: usize)
        ensures
            r as int == self.handle_id(),
    {
        self.handle
    }

    /// The number of arguments this predicate takes.
    pub fn arity(&self) -> (a: u16)
        ensures
            a == self.arity_of(),
    {
        self.arity
    }
}

} // verus!
