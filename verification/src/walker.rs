//! Layout callbacks made from plain functions.

use crate::types::{GcTypeLayout, GcTypeWalk, GcWalker};
use vstd::prelude::*;

verus! {

/// `f` can be asked about every slot of every payload.
pub open spec fn total<F: Fn(&[u64], u32) -> GcTypeWalk>(f: F) -> bool {
    forall|p: &[u64], i: u32| #[trigger] call_requires(f, (p, i))
}

/// The answer of `f` depends on the contents of the payload and the slot
/// index alone.
pub open spec fn deterministic<F: Fn(&[u64], u32) -> GcTypeWalk>(f: F) -> bool {
    forall|p: &[u64], q: &[u64], i: u32, a: GcTypeWalk, b: GcTypeWalk|
        p@ == q@ && #[trigger] call_ensures(f, (p, i), a) && #[trigger] call_ensures(f, (q, i), b)
            ==> a == b
}

/// `a` is an answer that `f` can give for slot `i` of a payload with the
/// contents `payload`.
pub open spec fn can_answer<F: Fn(&[u64], u32) -> GcTypeWalk>(
    f: F,
    payload: Seq<u64>,
    i: u32,
    a: GcTypeWalk,
) -> bool {
    exists|p: &[u64]| p@ == payload && #[trigger] call_ensures(f, (p, i), a)
}

/// The answer of `f` for slot `i` of a payload with the contents `payload`.
pub open spec fn answer_of<F: Fn(&[u64], u32) -> GcTypeWalk>(
    f: F,
    payload: Seq<u64>,
    i: u32,
) -> GcTypeWalk {
    choose|a: GcTypeWalk| can_answer(f, payload, i, a)
}

/// Whatever `f` answers is what `model` says: `model` describes `f`.
pub open spec fn follows<F: Fn(&[u64], u32) -> GcTypeWalk>(
    f: F,
    model: spec_fn(Seq<u64>, u32) -> GcTypeWalk,
) -> bool {
    forall|p: &[u64], i: u32, a: GcTypeWalk| #[trigger]
        call_ensures(f, (p, i), a) ==> a == model(p@, i)
}

/// A layout callback that asks a function.  Its answers are described by
/// a model: a function of the payload's contents and the slot index.
pub struct FnWalker<F: Fn(&[u64], u32) -> GcTypeWalk> {
    f: F,
    model: Ghost<spec_fn(Seq<u64>, u32) -> GcTypeWalk>,
}

impl<F: Fn(&[u64], u32) -> GcTypeWalk> FnWalker<F> {
    #[verifier::type_invariant]
    spec fn inv(&self) -> bool {
        total(self.f) && follows(self.f, self.model@)
    }

    /// The function that is asked.
    pub closed spec fn function(&self) -> F {
        self.f
    }

    /// What describes the answers of the function.
    pub closed spec fn model(&self) -> spec_fn(Seq<u64>, u32) -> GcTypeWalk {
        self.model@
    }

    /// A callback that asks `f`, described by whatever `f` answers.
    ///
    /// Nothing more is known of the answers in a proof.  Where a proof
    /// needs to know them, to show that the layout is stable for
    /// instance, use `with_model`.
    pub fn new(f: F) -> (w: FnWalker<F>)
        requires
            total(f),
            deterministic(f),
        ensures
            w.function() == f,
            w.model() == (|payload: Seq<u64>, i: u32| answer_of(f, payload, i)),
    {
        let ghost model = |payload: Seq<u64>, i: u32| answer_of(f, payload, i);
        proof {
            assert forall|p: &[u64], i: u32, a: GcTypeWalk| #[trigger]
                call_ensures(f, (p, i), a) implies a == model(p@, i) by {
                assert(can_answer(f, p@, i, a));
                let b = answer_of(f, p@, i);
                assert(can_answer(f, p@, i, b));
            }
        }
        FnWalker { f, model: Ghost(model) }
    }

    /// A callback that asks `f`, described by `model`.
    pub fn with_model(f: F, Ghost(model): Ghost<spec_fn(Seq<u64>, u32) -> GcTypeWalk>) -> (w:
        FnWalker<F>)
        requires
            total(f),
            follows(f, model),
        ensures
            w.function() == f,
            w.model() == model,
    {
        FnWalker { f, model: Ghost(model) }
    }
}

impl<F: Fn(&[u64], u32) -> GcTypeWalk> GcWalker for FnWalker<F> {
    closed spec fn walk_spec(&self, payload: Seq<u64>, index: u32) -> GcTypeWalk {
        (self.model@)(payload, index)
    }

    fn walk(&self, payload: &[u64], index: u32) -> (r: GcTypeWalk) {
        proof {
            use_type_invariant(self);
        }
        (self.f)(payload, index)
    }
}

/// The callback layout that asks `f`.
///
/// Nothing more is known of the layout's answers in a proof than that
/// they are what `f` answers.  A caller that has to prove something of the
/// layout, that it is stable as `GcType::new` requires for instance, uses
/// `callback_as`, or implements `GcWalker` with a `walk_spec` of its own.
pub fn callback<F: Fn(&[u64], u32) -> GcTypeWalk + 'static>(f: F) -> (layout: GcTypeLayout)
    requires
        total(f),
        deterministic(f),
    ensures
        layout is Callback,
        forall|payload: Seq<u64>, i: u32| #[trigger]
            layout.answer(payload, i) == answer_of(f, payload, i),
{
    GcTypeLayout::Callback(Box::new(FnWalker::new(f)))
}

/// The callback layout that asks `f`, whose answers `model` describes:
/// the layout answers what `model` says.
pub fn callback_as<F: Fn(&[u64], u32) -> GcTypeWalk + 'static>(
    f: F,
    Ghost(model): Ghost<spec_fn(Seq<u64>, u32) -> GcTypeWalk>,
) -> (layout: GcTypeLayout)
    requires
        total(f),
        follows(f, model),
    ensures
        layout is Callback,
        forall|payload: Seq<u64>, i: u32| #[trigger] layout.answer(payload, i) == model(payload, i),
{
    GcTypeLayout::Callback(Box::new(FnWalker::with_model(f, Ghost(model))))
}

} // verus!
