use vstd::prelude::*;

use crate::ast::{BodyExpressionView, FactView, RuleView};
use crate::engine::{matching_set, RustEngine};
use crate::fixpoint::{
    body_bindings_from, is_reach_closure, is_saturation, pass_from, passes, rule_heads,
    step_constraint,
};
use crate::unify::lemma_ground_match_fact;
use crate::EngineError;

verus! {

/// Idempotent assertion: the relation store is a set, so asserting a fact a
/// second time leaves the store exactly where the first assertion put it, its
/// size included.  The hypotheses are what `push_fact` promises of two
/// successive accepted assertions of the same fact.
pub proof fn lemma_push_fact_idempotent(
    pre: RustEngine,
    mid: RustEngine,
    fin: RustEngine,
    f: FactView,
)
    requires
        mid.facts_set() == pre.facts_set().insert(f),
        fin.facts_set() == mid.facts_set().insert(f),
    ensures
        fin.facts_set() == mid.facts_set(),
        fin.facts_set().len() == mid.facts_set().len(),
{
    assert(fin.facts_set() =~= mid.facts_set());
}

/// Exact match: a fully bound query pattern matches a fact exactly when the
/// two are equal, so the answer to such a query is exactly the set of stored
/// or derived facts equal to the pattern.
pub proof fn lemma_exact_match(s: Set<FactView>, q: FactView)
    requires
        q.is_ground(),
    ensures
        matching_set(s, q) == s.filter(|f: FactView| f == q),
{
    assert forall|f: FactView| matching_set(s, q).contains(f) implies s.filter(
        |f2: FactView| f2 == q,
    ).contains(f) by {
        lemma_ground_match_fact(q, f);
    }
    assert forall|f: FactView| s.filter(|f2: FactView| f2 == q).contains(f) implies matching_set(
        s,
        q,
    ).contains(f) by {
        lemma_ground_match_fact(q, f);
    }
    assert(matching_set(s, q) =~= s.filter(|f: FactView| f == q));
}

/// The reachable closure of a relation key is unique: any two sets that
/// contain the key, are closed under the dependency step, and are least with
/// those properties are equal.
pub proof fn lemma_reach_closure_unique(
    rs: Seq<RuleView>,
    k0: (Seq<char>, nat),
    ks1: Set<(Seq<char>, nat)>,
    ks2: Set<(Seq<char>, nat)>,
)
    requires
        is_reach_closure(rs, k0, ks1),
        is_reach_closure(rs, k0, ks2),
    ensures
        ks1 == ks2,
{
    assert(ks1.subset_of(ks2));
    assert(ks2.subset_of(ks1));
    assert(ks1 =~= ks2);
}

/// Once a pass leaves the store unchanged, every later pass does too.
proof fn lemma_passes_stable_ok(
    base: Set<FactView>,
    rules: Seq<RuleView>,
    s: Set<FactView>,
    n: nat,
    m: nat,
)
    requires
        passes(base, rules, n) == Ok::<Set<FactView>, EngineError>(s),
        pass_from(s, rules, 0) == Ok::<Set<FactView>, EngineError>(s),
        n <= m,
    ensures
        passes(base, rules, m) == Ok::<Set<FactView>, EngineError>(s),
    decreases m,
{
    if m > n {
        lemma_passes_stable_ok(base, rules, s, n, (m - 1) as nat);
    }
}

/// Once a pass fails, every later pass reports the same failure.
proof fn lemma_passes_stable_err(
    base: Set<FactView>,
    rules: Seq<RuleView>,
    e: EngineError,
    n: nat,
    m: nat,
)
    requires
        passes(base, rules, n) == Err::<Set<FactView>, EngineError>(e),
        n <= m,
    ensures
        passes(base, rules, m) == Err::<Set<FactView>, EngineError>(e),
    decreases m,
{
    if m > n {
        lemma_passes_stable_err(base, rules, e, n, (m - 1) as nat);
    }
}

/// Body evaluation can fail only over a constraint, and a constraint only
/// with `UnboundInConstraint`.
proof fn lemma_body_bindings_err(
    facts: Set<FactView>,
    bs: Set<Map<Seq<char>, Seq<char>>>,
    body: Seq<BodyExpressionView>,
    i: int,
)
    ensures
        body_bindings_from(facts, bs, body, i) is Err ==> body_bindings_from(facts, bs, body, i)
            == Err::<Set<Map<Seq<char>, Seq<char>>>, EngineError>(
            EngineError::UnboundInConstraint,
        ),
    decreases body.len() - i,
{
    if 0 <= i < body.len() {
        match body[i] {
            BodyExpressionView::Fact(p) => {
                lemma_body_bindings_err(
                    facts,
                    crate::fixpoint::step_fact_pattern(facts, bs, p),
                    body,
                    i + 1,
                );
            },
            BodyExpressionView::Equals(c) => {
                match step_constraint(bs, c) {
                    Ok(bs2) => {
                        lemma_body_bindings_err(facts, bs2, body, i + 1);
                    },
                    Err(_) => {},
                }
            },
        }
    }
}

/// One pass can fail only through a rule body, hence only with
/// `UnboundInConstraint`.
proof fn lemma_pass_from_err(facts: Set<FactView>, rules: Seq<RuleView>, i: int)
    ensures
        pass_from(facts, rules, i) is Err ==> pass_from(facts, rules, i) == Err::<
            Set<FactView>,
            EngineError,
        >(EngineError::UnboundInConstraint),
    decreases rules.len() - i,
{
    if 0 <= i < rules.len() {
        match rule_heads(facts, rules[i]) {
            Ok(hs) => {
                lemma_pass_from_err(facts.union(hs), rules, i + 1);
            },
            Err(_) => {
                lemma_body_bindings_err(
                    facts,
                    crate::fixpoint::init_bindings(),
                    rules[i].body,
                    0,
                );
            },
        }
    }
}

/// Iterated passes inherit the same property.
proof fn lemma_passes_err(base: Set<FactView>, rules: Seq<RuleView>, n: nat)
    ensures
        passes(base, rules, n) is Err ==> passes(base, rules, n) == Err::<
            Set<FactView>,
            EngineError,
        >(EngineError::UnboundInConstraint),
    decreases n,
{
    if n > 0 {
        lemma_passes_err(base, rules, (n - 1) as nat);
        match passes(base, rules, (n - 1) as nat) {
            Ok(s) => {
                lemma_pass_from_err(s, rules, 0);
            },
            Err(_) => {},
        }
    }
}

/// The one error a derivation can surface is `UnboundInConstraint`: an
/// equality or inequality constraint evaluated before its variables were
/// bound.  Every other failure of an engine operation is rejected at
/// assertion time, never during query resolution.
pub proof fn lemma_saturation_err_is_unbound(
    base: Set<FactView>,
    rules: Seq<RuleView>,
    e: EngineError,
)
    requires
        is_saturation(base, rules, Err(e)),
    ensures
        e == EngineError::UnboundInConstraint,
{
    let n = choose|n: nat| passes(base, rules, n) == Err::<Set<FactView>, EngineError>(e);
    lemma_passes_err(base, rules, n);
}

/// The fixpoint computation is deterministic: from one base store and one
/// rule list it has at most one outcome, be it the saturated store or an
/// error.  Together with the closure's uniqueness this pins each query
/// answer down completely.
pub proof fn lemma_saturation_unique(
    base: Set<FactView>,
    rules: Seq<RuleView>,
    o1: Result<Set<FactView>, EngineError>,
    o2: Result<Set<FactView>, EngineError>,
)
    requires
        is_saturation(base, rules, o1),
        is_saturation(base, rules, o2),
    ensures
        o1 == o2,
{
    match (o1, o2) {
        (Ok(s1), Ok(s2)) => {
            let n1 = choose|n: nat| passes(base, rules, n) == Ok::<Set<FactView>, EngineError>(s1);
            let n2 = choose|n: nat| passes(base, rules, n) == Ok::<Set<FactView>, EngineError>(s2);
            if n1 <= n2 {
                lemma_passes_stable_ok(base, rules, s1, n1, n2);
            } else {
                lemma_passes_stable_ok(base, rules, s2, n2, n1);
            }
        },
        (Ok(s1), Err(e2)) => {
            let n1 = choose|n: nat| passes(base, rules, n) == Ok::<Set<FactView>, EngineError>(s1);
            let n2 = choose|n: nat| passes(base, rules, n) == Err::<Set<FactView>, EngineError>(
                e2,
            );
            if n1 <= n2 {
                lemma_passes_stable_ok(base, rules, s1, n1, n2);
            } else {
                lemma_passes_stable_err(base, rules, e2, n2, n1);
            }
        },
        (Err(e1), Ok(s2)) => {
            let n1 = choose|n: nat| passes(base, rules, n) == Err::<Set<FactView>, EngineError>(
                e1,
            );
            let n2 = choose|n: nat| passes(base, rules, n) == Ok::<Set<FactView>, EngineError>(s2);
            if n2 <= n1 {
                lemma_passes_stable_ok(base, rules, s2, n2, n1);
            } else {
                lemma_passes_stable_err(base, rules, e1, n1, n2);
            }
        },
        (Err(e1), Err(e2)) => {
            let n1 = choose|n: nat| passes(base, rules, n) == Err::<Set<FactView>, EngineError>(
                e1,
            );
            let n2 = choose|n: nat| passes(base, rules, n) == Err::<Set<FactView>, EngineError>(
                e2,
            );
            if n1 <= n2 {
                lemma_passes_stable_err(base, rules, e1, n1, n2);
            } else {
                lemma_passes_stable_err(base, rules, e2, n2, n1);
            }
        },
    }
}

} // verus!
