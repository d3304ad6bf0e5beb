//! A small verified Datalog evaluator: a store of ground facts and derivation
//! rules over named relations, and a query resolver that answers pattern
//! queries, deriving facts from the rules to fixpoint where needed.
//!
//! The data model lives in [`ast`], variable bindings in [`binding`], the
//! matching and substitution primitives in [`unify`], the naive fixpoint and
//! relation-dependency machinery in [`fixpoint`], the engine itself in
//! [`engine`], and the laws that tie the pieces together in [`laws`].

pub mod ast;
pub mod binding;
pub mod engine;
pub mod fixpoint;
pub mod laws;
pub mod unify;

use vstd::prelude::*;

verus! {

/// The recoverable failures an engine operation can report.  Nothing here is
/// fatal: a failed assertion leaves the stores unchanged, and a failed query
/// derives nothing.
#[derive(Clone, Copy, Debug, PartialEq, Eq, Structural)]
pub enum EngineError {
    /// A fact or rule head uses a relation name already defined with a
    /// different number of columns.
    ArityMismatch,
    /// A rule head contains a free variable absent from the fact patterns of
    /// its body.
    UnrestrictedHead,
    /// A relation name is asserted as both a fact and a rule head with
    /// conflicting arity.
    NameClash,
    /// An equality or inequality constraint was evaluated while one of its
    /// variables was still unbound.
    UnboundInConstraint,
}

/// The evaluation step of a read-eval-print loop over already-parsed input:
/// the engine's operations do all the work, so this step passes its input
/// through unchanged.
pub fn eval<T>(i: T) -> (r: T)
    ensures
        r == i,
{
    i
}

} // verus!
