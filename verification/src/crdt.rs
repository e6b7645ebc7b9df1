//! The conflict-free replicated data types the engine is built from.
//!
//! A state-based CRDT merges by a commutative, associative, idempotent
//! operation; an op-based CRDT applies operations.  The engine is generic
//! over the user state, which provides both faces through the [`Crdt`]
//! trait.

pub mod mvreg;
pub mod vclock;

use vstd::prelude::*;

use crate::crdt::vclock::VClock;
use crate::msgpack::Codec;
use vstd::view::View;

verus! {

/// One causal event: an actor and its counter.
#[derive(Debug, Clone, Copy, PartialEq, Eq, Structural)]
pub struct Dot {
    pub actor: u128,
    pub counter: u64,
}

/// The causal context returned by a read: the clocks observed, and the
/// value read.
#[derive(Debug, Clone)]
pub struct ReadCtx<T> {
    pub add_clock: VClock,
    pub rm_clock: VClock,
    pub val: T,
}

/// The causal context under which a new write is applied: the writer's
/// fresh dot, and the read clock advanced by it.
#[derive(Debug, Clone)]
pub struct AddCtx {
    pub clock: VClock,
    pub dot: Dot,
}

impl<T> ReadCtx<T> {
    /// Derives the context for a new write by `actor`: the observed clock
    /// advanced by the actor's next dot.  The derived clock strictly
    /// dominates every clock the read observed.
    pub fn derive_add_ctx(&self, actor: u128) -> (r: AddCtx)
        requires
            self.add_clock.wf(),
            self.add_clock.get_spec(actor) < u64::MAX,
        ensures
            r.clock.wf(),
            r.dot == (Dot { actor, counter: (self.add_clock.get_spec(actor) + 1) as u64 }),
            r.clock.get_spec(actor) == self.add_clock.get_spec(actor) + 1,
            forall|x: u128| x != actor ==> r.clock.get_spec(x) == self.add_clock.get_spec(x),
    {
        let counter = self.add_clock.get(actor) + 1;
        let mut clock = self.add_clock.deep_clone();
        clock.apply_dot(actor, counter);
        AddCtx { clock, dot: Dot { actor, counter } }
    }

    /// The value together with the same causal context.
    pub fn with_val<U>(self, val: U) -> (r: ReadCtx<U>)
        ensures
            r.add_clock == self.add_clock,
            r.rm_clock == self.rm_clock,
            r.val == val,
    {
        ReadCtx { add_clock: self.add_clock, rm_clock: self.rm_clock, val }
    }
}

/// A clone whose result provably has the same view as the original.
///
/// Derived `Clone` on a non-`Copy` type says nothing to the verifier, so
/// values that flow through contracts are duplicated through this trait
/// instead.
pub trait DeepClone: View + Sized {
    fn deep_clone(&self) -> (r: Self)
        ensures
            r@ == self@,
    ;
}

impl DeepClone for u64 {
    fn deep_clone(&self) -> (r: Self)
        ensures
            r@ == self@,
    {
        *self
    }
}

impl DeepClone for u128 {
    fn deep_clone(&self) -> (r: Self)
        ensures
            r@ == self@,
    {
        *self
    }
}

/// A state-based CRDT: merges by an operation that is commutative,
/// associative and idempotent over well-formed states.
///
/// `merged_of` is each implementation's own specification of its
/// executable `merge`, stated over views; `empty_of` is the state a fresh
/// replica starts from.
pub trait CvCrdt: Codec {
    /// The state a fresh replica starts from.
    spec fn empty_of() -> Self::V;

    /// The specification of `merge`.
    spec fn merged_of(a: Self::V, b: Self::V) -> Self::V;

    /// The state's internal well-formedness.
    spec fn inv_of(s: Self::V) -> bool;

    /// Whatever the state decoder accepts is well-formed.
    proof fn lemma_valid_state_inv(m: Self::V)
        ensures
            Self::valid_of(m) ==> Self::inv_of(m),
    ;

    fn new_empty() -> (r: Self)
        ensures
            r@ == Self::empty_of(),
            Self::inv_of(r@),
    ;

    fn merge(&mut self, other: Self)
        requires
            Self::inv_of(old(self)@),
            Self::inv_of(other@),
        ensures
            final(self)@ == Self::merged_of(old(self)@, other@),
            Self::inv_of(final(self)@),
    ;
}

/// An op-based CRDT: applies operations one at a time.
pub trait CmCrdt: CvCrdt {
    type Op: Codec;

    /// The specification of `apply`.
    spec fn applied_of(s: Self::V, op: <Self::Op as View>::V) -> Self::V;

    /// The well-formedness an operation needs before it can be applied.
    spec fn op_inv_of(op: <Self::Op as View>::V) -> bool;

    /// Whatever the op decoder accepts is well-formed.
    proof fn lemma_valid_op_inv(m: <Self::Op as View>::V)
        ensures
            <Self::Op as Codec>::valid_of(m) ==> Self::op_inv_of(m),
    ;

    fn apply(&mut self, op: Self::Op)
        requires
            Self::inv_of(old(self)@),
            Self::op_inv_of(op@),
        ensures
            final(self)@ == Self::applied_of(old(self)@, op@),
            Self::inv_of(final(self)@),
    ;
}

/// A CRDT state folded through a sequence of operations, first to last.
pub open spec fn applied_all_of<S: CmCrdt>(s: S::V, ops: Seq<<S::Op as View>::V>) -> S::V
    decreases ops.len(),
{
    if ops.len() == 0 {
        s
    } else {
        S::applied_of(applied_all_of::<S>(s, ops.drop_last()), ops.last())
    }
}

} // verus!
