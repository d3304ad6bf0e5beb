use vstd::prelude::*;

use crate::ast::{
    body_pattern_vars, BodyExpression, BodyExpressionView, Fact, FactView, Rule, RuleView,
};
use crate::binding::Binding;
use crate::unify::{
    eval_constraint_spec, evaluate_constraint, match_fact, match_fact_spec, subst_fact_spec,
    subst_term, substitute,
};
use crate::EngineError;

verus! {

/// The views of the facts in a store, in store order.
pub open spec fn fact_views(fs: Seq<Fact>) -> Seq<FactView> {
    fs.map_values(|f: Fact| f@)
}

/// The views of the rules in a store, in store order.
pub open spec fn rule_views(rs: Seq<Rule>) -> Seq<RuleView> {
    rs.map_values(|r: Rule| r@)
}

/// A well-formed fact store holds ground facts with no duplicates: the set
/// semantics of the relation store.
pub open spec fn store_wf(fs: Seq<FactView>) -> bool {
    &&& fs.no_duplicates()
    &&& forall|i: int| 0 <= i < fs.len() ==> (#[trigger] fs[i]).is_ground()
}

/// Every rule of the store is range restricted.
pub open spec fn rules_restricted(rs: Seq<RuleView>) -> bool {
    forall|i: int| 0 <= i < rs.len() ==> (#[trigger] rs[i]).is_range_restricted()
}

/// All constants appearing in the facts of a set.
pub open spec fn set_syms(fs: Set<FactView>) -> Set<Seq<char>> {
    Set::new(|k: Seq<char>| exists|f: FactView| #[trigger] fs.contains(f) && f.syms().contains(k))
}

/// The join step of body evaluation: every current binding extended by every
/// fact of the store that the pattern matches under it.
pub open spec fn step_fact_pattern(
    facts: Set<FactView>,
    bs: Set<Map<Seq<char>, Seq<char>>>,
    p: FactView,
) -> Set<Map<Seq<char>, Seq<char>>> {
    Set::new(
        |m: Map<Seq<char>, Seq<char>>|
            exists|b: Map<Seq<char>, Seq<char>>, f: FactView|
                bs.contains(b) && facts.contains(f) && #[trigger] match_fact_spec(p, f, b) == Some(
                    m,
                ),
    )
}

/// The filter step of body evaluation: bindings for which the constraint
/// holds; a binding that leaves a side unresolved is a hard failure.
pub open spec fn step_constraint(
    bs: Set<Map<Seq<char>, Seq<char>>>,
    c: crate::ast::EqualityConstraintView,
) -> Result<Set<Map<Seq<char>, Seq<char>>>, EngineError> {
    if exists|b: Map<Seq<char>, Seq<char>>|
        bs.contains(b) && !(#[trigger] eval_constraint_spec(c, b) is Ok) {
        Err(EngineError::UnboundInConstraint)
    } else {
        Ok(
            bs.filter(
                |b: Map<Seq<char>, Seq<char>>|
                    eval_constraint_spec(c, b) == Ok::<bool, EngineError>(true),
            ),
        )
    }
}

/// The bindings satisfying the body elements from position `i` on, starting
/// from the binding set `bs`, joined and filtered left to right.
pub open spec fn body_bindings_from(
    facts: Set<FactView>,
    bs: Set<Map<Seq<char>, Seq<char>>>,
    body: Seq<BodyExpressionView>,
    i: int,
) -> Result<Set<Map<Seq<char>, Seq<char>>>, EngineError>
    decreases body.len() - i,
{
    if i < 0 || i >= body.len() {
        Ok(bs)
    } else {
        match body[i] {
            BodyExpressionView::Fact(p) => body_bindings_from(
                facts,
                step_fact_pattern(facts, bs, p),
                body,
                i + 1,
            ),
            BodyExpressionView::Equals(c) => match step_constraint(bs, c) {
                Ok(bs2) => body_bindings_from(facts, bs2, body, i + 1),
                Err(e) => Err(e),
            },
        }
    }
}

/// Body evaluation starts from the single empty binding.
pub open spec fn init_bindings() -> Set<Map<Seq<char>, Seq<char>>> {
    Set::empty().insert(Map::empty())
}

/// The ground facts one rule derives from the current store: its head under
/// every binding that satisfies its body.
pub open spec fn rule_heads(facts: Set<FactView>, r: RuleView) -> Result<
    Set<FactView>,
    EngineError,
> {
    match body_bindings_from(facts, init_bindings(), r.body, 0) {
        Ok(bs) => Ok(bs.map(|b: Map<Seq<char>, Seq<char>>| subst_fact_spec(r.head, b))),
        Err(e) => Err(e),
    }
}

/// One pass of the naive fixpoint: the rules fire in order from position `i`,
/// each seeing the facts the earlier ones added.
pub open spec fn pass_from(facts: Set<FactView>, rules: Seq<RuleView>, i: int) -> Result<
    Set<FactView>,
    EngineError,
>
    decreases rules.len() - i,
{
    if i < 0 || i >= rules.len() {
        Ok(facts)
    } else {
        match rule_heads(facts, rules[i]) {
            Ok(hs) => pass_from(facts.union(hs), rules, i + 1),
            Err(e) => Err(e),
        }
    }
}

/// The store after `n` passes over the rules; an error is final.
pub open spec fn passes(facts: Set<FactView>, rules: Seq<RuleView>, n: nat) -> Result<
    Set<FactView>,
    EngineError,
>
    decreases n,
{
    if n == 0 {
        Ok(facts)
    } else {
        match passes(facts, rules, (n - 1) as nat) {
            Ok(s) => pass_from(s, rules, 0),
            Err(e) => Err(e),
        }
    }
}

/// What the fixpoint computation may produce from a base store and a rule
/// list: either the store some number of passes reaches and a further pass
/// leaves unchanged, or the error some pass runs into.  Passes are
/// deterministic, so at most one outcome satisfies this.
pub open spec fn is_saturation(
    base: Set<FactView>,
    rules: Seq<RuleView>,
    outcome: Result<Set<FactView>, EngineError>,
) -> bool {
    match outcome {
        Ok(s) => (exists|n: nat|
            passes(base, rules, n) == Ok::<Set<FactView>, EngineError>(s)) && pass_from(s, rules, 0)
            == Ok::<Set<FactView>, EngineError>(s),
        Err(e) => exists|n: nat| passes(base, rules, n) == Err::<Set<FactView>, EngineError>(e),
    }
}

/// The views of a vector of bindings, in order.
pub open spec fn bviews_seq(bs: Seq<Binding>) -> Seq<Map<Seq<char>, Seq<char>>> {
    bs.map_values(|b: Binding| b@)
}

/// The set of bindings a vector of bindings stands for.
pub open spec fn binding_views(bs: Seq<Binding>) -> Set<Map<Seq<char>, Seq<char>>> {
    bviews_seq(bs).to_set()
}

/// Pushing a binding adds exactly its map to the set of views.
proof fn lemma_binding_views_push(bs: Seq<Binding>, b: Binding)
    ensures
        binding_views(bs.push(b)) == binding_views(bs).insert(b@),
{
    let nv = bviews_seq(bs.push(b));
    let ov = bviews_seq(bs);
    assert forall|m: Map<Seq<char>, Seq<char>>| nv.to_set().contains(m) implies ov.to_set().insert(
        b@,
    ).contains(m) by {
        let j = choose|j: int| 0 <= j < nv.len() && nv[j] == m;
        if j < ov.len() {
            assert(ov[j] == m);
            assert(ov.contains(m));
        }
    }
    assert forall|m: Map<Seq<char>, Seq<char>>| ov.to_set().insert(b@).contains(m) implies
    nv.to_set().contains(m) by {
        if m == b@ {
            assert(nv[nv.len() - 1] == m);
        } else {
            let j = choose|j: int| 0 <= j < ov.len() && ov[j] == m;
            assert(nv[j] == m);
        }
    }
    assert(binding_views(bs.push(b)) =~= binding_views(bs).insert(b@));
}

/// The bindings produced by the pairs of current bindings and store facts
/// processed so far: all pairs before binding index `bi`, and those at `bi`
/// before fact index `fi`.
spec fn partial_join(
    sv: Seq<FactView>,
    bv: Seq<Map<Seq<char>, Seq<char>>>,
    p: FactView,
    bi: int,
    fi: int,
) -> Set<Map<Seq<char>, Seq<char>>> {
    Set::new(
        |m: Map<Seq<char>, Seq<char>>|
            exists|bk: int, fk: int|
                0 <= bk < bv.len() && 0 <= fk < sv.len() && (bk < bi || (bk == bi && fk < fi))
                    && #[trigger] match_fact_spec(p, sv[fk], bv[bk]) == Some(m),
    )
}

/// The join step as executed: each current binding against each stored fact.
/// The ghost sets name what is known of the current bindings: `d` is a set of
/// names they all bind, `w` a set their constants are drawn from.
#[verifier::loop_isolation(false)]
fn join_step(
    store: &Vec<Fact>,
    cur: &Vec<Binding>,
    p: &Fact,
    Ghost(d): Ghost<Set<Seq<char>>>,
    Ghost(w): Ghost<Set<Seq<char>>>,
) -> (next: Vec<Binding>)
    requires
        forall|k: int| 0 <= k < cur@.len() ==> (#[trigger] cur@[k]).wf(),
        forall|k: int, x: Seq<char>|
            0 <= k < cur@.len() && d.contains(x) ==> (#[trigger] cur@[k]@.contains_key(x)),
        forall|k: int, x: Seq<char>|
            0 <= k < cur@.len() && #[trigger] cur@[k]@.contains_key(x) ==> w.contains(cur@[k]@[x]),
    ensures
        binding_views(next@) == step_fact_pattern(
            fact_views(store@).to_set(),
            binding_views(cur@),
            p@,
        ),
        forall|k: int| 0 <= k < next@.len() ==> (#[trigger] next@[k]).wf(),
        forall|k: int, x: Seq<char>|
            0 <= k < next@.len() && (d.contains(x) || p@.free_vars().contains(x)) ==> (
            #[trigger] next@[k]@.contains_key(x)),
        forall|k: int, x: Seq<char>|
            0 <= k < next@.len() && #[trigger] next@[k]@.contains_key(x) ==> w.contains(
                next@[k]@[x],
            ) || set_syms(fact_views(store@).to_set()).contains(next@[k]@[x]),
{
    let ghost sv = fact_views(store@);
    let ghost bv = bviews_seq(cur@);
    let mut next: Vec<Binding> = Vec::new();
    let m = cur.len();
    let mut j: usize = 0;
    while j < m
        invariant
            j <= m,
            binding_views(next@) == partial_join(sv, bv, p@, j as int, 0),
            forall|k: int| 0 <= k < next@.len() ==> (#[trigger] next@[k]).wf(),
            forall|k: int, x: Seq<char>|
                0 <= k < next@.len() && (d.contains(x) || p@.free_vars().contains(x)) ==> (
                #[trigger] next@[k]@.contains_key(x)),
            forall|k: int, x: Seq<char>|
                0 <= k < next@.len() && #[trigger] next@[k]@.contains_key(x) ==> w.contains(
                    next@[k]@[x],
                ) || set_syms(sv.to_set()).contains(next@[k]@[x]),
        decreases m - j,
    {
        let n = store.len();
        let mut fi: usize = 0;
        while fi < n
            invariant
                j < m,
                fi <= n,
                binding_views(next@) == partial_join(sv, bv, p@, j as int, fi as int),
                forall|k: int| 0 <= k < next@.len() ==> (#[trigger] next@[k]).wf(),
                forall|k: int, x: Seq<char>|
                    0 <= k < next@.len() && (d.contains(x) || p@.free_vars().contains(x)) ==> (
                    #[trigger] next@[k]@.contains_key(x)),
                forall|k: int, x: Seq<char>|
                    0 <= k < next@.len() && #[trigger] next@[k]@.contains_key(x) ==> w.contains(
                        next@[k]@[x],
                    ) || set_syms(sv.to_set()).contains(next@[k]@[x]),
            decreases n - fi,
        {
            proof {
                assert(sv[fi as int] == store@[fi as int]@);
                assert(bv[j as int] == cur@[j as int]@);
            }
            match match_fact(p, &store[fi], &cur[j]) {
                Some(b2) => {
                    proof {
                        lemma_binding_views_push(next@, b2);
                        assert forall|x: Map<Seq<char>, Seq<char>>|
                            partial_join(sv, bv, p@, j as int, fi + 1).contains(x) implies
                        partial_join(sv, bv, p@, j as int, fi as int).insert(b2@).contains(x) by {
                            let (bk, fk) = choose|bk: int, fk: int|
                                0 <= bk < bv.len() && 0 <= fk < sv.len() && (bk < j || (bk == j
                                    && fk < fi + 1)) && #[trigger] match_fact_spec(
                                    p@,
                                    sv[fk],
                                    bv[bk],
                                ) == Some(x);
                            if bk == j && fk == fi {
                                assert(x == b2@);
                            } else {
                                assert(partial_join(sv, bv, p@, j as int, fi as int).contains(x));
                            }
                        }
                        assert(partial_join(sv, bv, p@, j as int, fi + 1) =~= partial_join(
                            sv,
                            bv,
                            p@,
                            j as int,
                            fi as int,
                        ).insert(b2@));
                        assert forall|x: Seq<char>|
                            d.contains(x) || p@.free_vars().contains(x) implies b2@.contains_key(
                            x,
                        ) by {
                            if d.contains(x) {
                                assert(cur@[j as int]@.contains_key(x));
                            }
                        }
                        assert forall|x: Seq<char>| #[trigger] b2@.contains_key(x) implies
                        w.contains(b2@[x]) || set_syms(sv.to_set()).contains(b2@[x]) by {
                            if cur@[j as int]@.contains_key(x) && b2@[x] == cur@[j as int]@[x] {
                                assert(w.contains(cur@[j as int]@[x]));
                            } else {
                                assert(store@[fi as int]@.syms().contains(b2@[x]));
                                assert(sv.to_set().contains(sv[fi as int]));
                                assert(set_syms(sv.to_set()).contains(b2@[x]));
                            }
                        }
                    }
                    next.push(b2);
                },
                None => {
                    proof {
                        assert forall|x: Map<Seq<char>, Seq<char>>|
                            partial_join(sv, bv, p@, j as int, fi + 1).contains(x) implies
                        partial_join(sv, bv, p@, j as int, fi as int).contains(x) by {
                            let (bk, fk) = choose|bk: int, fk: int|
                                0 <= bk < bv.len() && 0 <= fk < sv.len() && (bk < j || (bk == j
                                    && fk < fi + 1)) && #[trigger] match_fact_spec(
                                    p@,
                                    sv[fk],
                                    bv[bk],
                                ) == Some(x);
                            assert(!(bk == j && fk == fi));
                        }
                        assert(partial_join(sv, bv, p@, j as int, fi + 1) =~= partial_join(
                            sv,
                            bv,
                            p@,
                            j as int,
                            fi as int,
                        ));
                    }
                },
            }
            fi += 1;
        }
        proof {
            assert forall|x: Map<Seq<char>, Seq<char>>|
                partial_join(sv, bv, p@, j + 1, 0).contains(x) implies partial_join(
                sv,
                bv,
                p@,
                j as int,
                n as int,
            ).contains(x) by {
                let (bk, fk) = choose|bk: int, fk: int|
                    0 <= bk < bv.len() && 0 <= fk < sv.len() && (bk < j + 1 || (bk == j + 1 && fk
                        < 0)) && #[trigger] match_fact_spec(p@, sv[fk], bv[bk]) == Some(x);
                assert(bk < j || (bk == j && fk < n));
            }
            assert(partial_join(sv, bv, p@, j + 1, 0) =~= partial_join(sv, bv, p@, j as int, n as int));
        }
        j += 1;
    }
    proof {
        let full = partial_join(sv, bv, p@, m as int, 0);
        let tgt = step_fact_pattern(sv.to_set(), bv.to_set(), p@);
        assert forall|x: Map<Seq<char>, Seq<char>>| full.contains(x) implies tgt.contains(x) by {
            let (bk, fk) = choose|bk: int, fk: int|
                0 <= bk < bv.len() && 0 <= fk < sv.len() && (bk < m || (bk == m && fk < 0))
                    && #[trigger] match_fact_spec(p@, sv[fk], bv[bk]) == Some(x);
            assert(bv.contains(bv[bk]));
            assert(sv.contains(sv[fk]));
        }
        assert forall|x: Map<Seq<char>, Seq<char>>| tgt.contains(x) implies full.contains(x) by {
            let (b, f) = choose|b: Map<Seq<char>, Seq<char>>, f: FactView|
                bv.to_set().contains(b) && sv.to_set().contains(f) && #[trigger] match_fact_spec(
                    p@,
                    f,
                    b,
                ) == Some(x);
            let bk = choose|bk: int| 0 <= bk < bv.len() && bv[bk] == b;
            let fk = choose|fk: int| 0 <= fk < sv.len() && sv[fk] == f;
            assert(match_fact_spec(p@, sv[fk], bv[bk]) == Some(x));
        }
        assert(full =~= tgt);
    }
    next
}

/// The constraint step as executed: every current binding is tested, an
/// unresolved side aborts the evaluation.
#[verifier::loop_isolation(false)]
fn constraint_step(
    cur: &Vec<Binding>,
    c: &crate::ast::EqualityConstraint,
    Ghost(d): Ghost<Set<Seq<char>>>,
    Ghost(w): Ghost<Set<Seq<char>>>,
) -> (r: Result<Vec<Binding>, EngineError>)
    requires
        forall|k: int| 0 <= k < cur@.len() ==> (#[trigger] cur@[k]).wf(),
        forall|k: int, x: Seq<char>|
            0 <= k < cur@.len() && d.contains(x) ==> (#[trigger] cur@[k]@.contains_key(x)),
        forall|k: int, x: Seq<char>|
            0 <= k < cur@.len() && #[trigger] cur@[k]@.contains_key(x) ==> w.contains(cur@[k]@[x]),
    ensures
        match r {
            Ok(next) => {
                &&& step_constraint(binding_views(cur@), c@) == Ok::<
                    Set<Map<Seq<char>, Seq<char>>>,
                    EngineError,
                >(binding_views(next@))
                &&& forall|k: int| 0 <= k < next@.len() ==> (#[trigger] next@[k]).wf()
                &&& forall|k: int, x: Seq<char>|
                    0 <= k < next@.len() && d.contains(x) ==> (
                    #[trigger] next@[k]@.contains_key(x))
                &&& forall|k: int, x: Seq<char>|
                    0 <= k < next@.len() && #[trigger] next@[k]@.contains_key(x) ==> w.contains(
                        next@[k]@[x],
                    )
            },
            Err(e) => step_constraint(binding_views(cur@), c@) == Err::<
                Set<Map<Seq<char>, Seq<char>>>,
                EngineError,
            >(e),
        },
{
    let ghost bv = bviews_seq(cur@);
    let mut next: Vec<Binding> = Vec::new();
    let m = cur.len();
    let mut k: usize = 0;
    while k < m
        invariant
            k <= m,
            forall|j: int| 0 <= j < k ==> eval_constraint_spec(c@, #[trigger] bv[j]) is Ok,
            forall|j: int| 0 <= j < next@.len() ==> (#[trigger] next@[j]).wf(),
            forall|j: int, x: Seq<char>|
                0 <= j < next@.len() && d.contains(x) ==> (#[trigger] next@[j]@.contains_key(x)),
            forall|j: int, x: Seq<char>|
                0 <= j < next@.len() && #[trigger] next@[j]@.contains_key(x) ==> w.contains(
                    next@[j]@[x],
                ),
            forall|x: Map<Seq<char>, Seq<char>>| #[trigger]
                binding_views(next@).contains(x) ==> exists|j: int|
                    0 <= j < k && bv[j] == x && eval_constraint_spec(c@, x) == Ok::<
                        bool,
                        EngineError,
                    >(true),
            forall|j: int|
                0 <= j < k && eval_constraint_spec(c@, #[trigger] bv[j]) == Ok::<
                    bool,
                    EngineError,
                >(true) ==> binding_views(next@).contains(bv[j]),
        decreases m - k,
    {
        proof {
            assert(bv[k as int] == cur@[k as int]@);
        }
        match evaluate_constraint(c, &cur[k]) {
            Ok(true) => {
                let d = cur[k].duplicate();
                proof {
                    lemma_binding_views_push(next@, d);
                }
                next.push(d);
            },
            Ok(false) => {},
            Err(e) => {
                proof {
                    assert(bv.contains(bv[k as int]));
                    assert(binding_views(cur@).contains(bv[k as int]));
                    assert(!(eval_constraint_spec(c@, bv[k as int]) is Ok));
                }
                return Err(e);
            },
        }
        k += 1;
    }
    proof {
        assert forall|b: Map<Seq<char>, Seq<char>>|
            binding_views(cur@).contains(b) implies #[trigger] eval_constraint_spec(c@, b)
            is Ok by {
            let j = choose|j: int| 0 <= j < bv.len() && bv[j] == b;
        }
        let tgt = binding_views(cur@).filter(
            |b: Map<Seq<char>, Seq<char>>|
                eval_constraint_spec(c@, b) == Ok::<bool, EngineError>(true),
        );
        assert forall|x: Map<Seq<char>, Seq<char>>|
            binding_views(next@).contains(x) implies tgt.contains(x) by {
            let j = choose|j: int|
                0 <= j < k && bv[j] == x && eval_constraint_spec(c@, x) == Ok::<
                    bool,
                    EngineError,
                >(true);
            assert(bv.contains(bv[j]));
        }
        assert forall|x: Map<Seq<char>, Seq<char>>| tgt.contains(x) implies binding_views(
            next@,
        ).contains(x) by {
            let j = choose|j: int| 0 <= j < bv.len() && bv[j] == x;
        }
        assert(binding_views(next@) =~= tgt);
    }
    Ok(next)
}

/// Enumerates the bindings satisfying a rule body against the store: starting
/// from the single empty binding, fact patterns join and constraints filter,
/// left to right.
#[verifier::loop_isolation(false)]
fn eval_body(store: &Vec<Fact>, body: &Vec<BodyExpression>) -> (r: Result<
    Vec<Binding>,
    EngineError,
>)
    ensures
        match r {
            Ok(bs) => {
                &&& body_bindings_from(
                    fact_views(store@).to_set(),
                    init_bindings(),
                    body@.map_values(|e: BodyExpression| e@),
                    0,
                ) == Ok::<Set<Map<Seq<char>, Seq<char>>>, EngineError>(binding_views(bs@))
                &&& forall|k: int| 0 <= k < bs@.len() ==> (#[trigger] bs@[k]).wf()
                &&& forall|k: int, x: Seq<char>|
                    0 <= k < bs@.len() && body_pattern_vars(
                        body@.map_values(|e: BodyExpression| e@),
                    ).contains(x) ==> (#[trigger] bs@[k]@.contains_key(x))
                &&& forall|k: int, x: Seq<char>|
                    0 <= k < bs@.len() && #[trigger] bs@[k]@.contains_key(x) ==> set_syms(
                        fact_views(store@).to_set(),
                    ).contains(bs@[k]@[x])
            },
            Err(e) => body_bindings_from(
                fact_views(store@).to_set(),
                init_bindings(),
                body@.map_values(|e: BodyExpression| e@),
                0,
            ) == Err::<Set<Map<Seq<char>, Seq<char>>>, EngineError>(e),
        },
{
    let ghost s = fact_views(store@).to_set();
    let ghost bodyv = body@.map_values(|e: BodyExpression| e@);
    let mut cur: Vec<Binding> = Vec::new();
    let b0 = Binding::new();
    cur.push(b0);
    proof {
        assert(cur@.len() == 1);
        assert(bviews_seq(cur@)[0] == Map::<Seq<char>, Seq<char>>::empty());
        assert forall|m: Map<Seq<char>, Seq<char>>|
            binding_views(cur@).contains(m) implies init_bindings().contains(m) by {
            let j = choose|j: int| 0 <= j < bviews_seq(cur@).len() && bviews_seq(cur@)[j] == m;
        }
        assert forall|m: Map<Seq<char>, Seq<char>>|
            init_bindings().contains(m) implies binding_views(cur@).contains(m) by {
            assert(bviews_seq(cur@)[0] == m);
        }
        assert(binding_views(cur@) =~= init_bindings());
    }
    let n = body.len();
    let mut i: usize = 0;
    while i < n
        invariant
            i <= n,
            body_bindings_from(s, init_bindings(), bodyv, 0) == body_bindings_from(
                s,
                binding_views(cur@),
                bodyv,
                i as int,
            ),
            forall|k: int| 0 <= k < cur@.len() ==> (#[trigger] cur@[k]).wf(),
            forall|k: int, x: Seq<char>|
                0 <= k < cur@.len() && body_pattern_vars(bodyv.take(i as int)).contains(x) ==> (
                #[trigger] cur@[k]@.contains_key(x)),
            forall|k: int, x: Seq<char>|
                0 <= k < cur@.len() && #[trigger] cur@[k]@.contains_key(x) ==> set_syms(s).contains(
                    cur@[k]@[x],
                ),
        decreases n - i,
    {
        let ghost dcur = body_pattern_vars(bodyv.take(i as int));
        match &body[i] {
            BodyExpression::Fact(p) => {
                proof {
                    assert(bodyv[i as int] == body@[i as int]@);
                    assert(bodyv[i as int] == BodyExpressionView::Fact(p@));
                }
                let next = join_step(store, &cur, p, Ghost(dcur), Ghost(set_syms(s)));
                proof {
                    assert(body_bindings_from(s, binding_views(cur@), bodyv, i as int)
                        == body_bindings_from(
                        s,
                        step_fact_pattern(s, binding_views(cur@), p@),
                        bodyv,
                        i + 1,
                    ));
                    assert forall|k: int, x: Seq<char>|
                        0 <= k < next@.len() && body_pattern_vars(bodyv.take(i + 1)).contains(
                            x,
                        ) implies (#[trigger] next@[k]@.contains_key(x)) by {
                        let jj = choose|jj: int|
                            0 <= jj < bodyv.take(i + 1).len() && #[trigger] bodyv.take(i + 1)[jj].pattern_vars().contains(
                                x,
                            );
                        if jj < i {
                            assert(bodyv.take(i as int)[jj] == bodyv.take(i + 1)[jj]);
                            assert(dcur.contains(x));
                        } else {
                            assert(bodyv.take(i + 1)[jj] == bodyv[i as int]);
                            assert(p@.free_vars().contains(x));
                        }
                    }
                }
                cur = next;
            },
            BodyExpression::Equals(c) => {
                proof {
                    assert(bodyv[i as int] == body@[i as int]@);
                    assert(bodyv[i as int] == BodyExpressionView::Equals(c@));
                }
                match constraint_step(&cur, c, Ghost(dcur), Ghost(set_syms(s))) {
                    Ok(next) => {
                        proof {
                            assert(body_bindings_from(s, binding_views(cur@), bodyv, i as int)
                                == body_bindings_from(s, binding_views(next@), bodyv, i + 1));
                            assert forall|k: int, x: Seq<char>|
                                0 <= k < next@.len() && body_pattern_vars(
                                    bodyv.take(i + 1),
                                ).contains(x) implies (#[trigger] next@[k]@.contains_key(x)) by {
                                let jj = choose|jj: int|
                                    0 <= jj < bodyv.take(i + 1).len() && #[trigger] bodyv.take(
                                        i + 1,
                                    )[jj].pattern_vars().contains(x);
                                if jj < i {
                                    assert(bodyv.take(i as int)[jj] == bodyv.take(i + 1)[jj]);
                                    assert(dcur.contains(x));
                                } else {
                                    assert(bodyv.take(i + 1)[jj] == bodyv[i as int]);
                                }
                            }
                        }
                        cur = next;
                    },
                    Err(e) => {
                        proof {
                            assert(body_bindings_from(s, binding_views(cur@), bodyv, i as int)
                                == Err::<Set<Map<Seq<char>, Seq<char>>>, EngineError>(e));
                        }
                        return Err(e);
                    },
                }
            },
        }
        i += 1;
    }
    proof {
        assert(bodyv.take(n as int) =~= bodyv);
        assert(body_bindings_from(s, binding_views(cur@), bodyv, n as int) == Ok::<
            Set<Map<Seq<char>, Seq<char>>>,
            EngineError,
        >(binding_views(cur@)));
    }
    Ok(cur)
}

/// Whether the store already holds this exact fact.
pub(crate) fn find_fact(store: &Vec<Fact>, f: &Fact) -> (r: bool)
    ensures
        r == fact_views(store@).contains(f@),
{
    let n = store.len();
    let mut i: usize = 0;
    while i < n
        invariant
            n == store@.len(),
            i <= n,
            forall|j: int| 0 <= j < i ==> fact_views(store@)[j] != f@,
        decreases n - i,
    {
        if store[i] == *f {
            proof {
                assert(fact_views(store@)[i as int] == f@);
            }
            return true;
        }
        proof {
            assert(fact_views(store@)[i as int] == store@[i as int]@);
        }
        i += 1;
    }
    proof {
        if fact_views(store@).contains(f@) {
            let j = choose|j: int|
                0 <= j < fact_views(store@).len() && fact_views(store@)[j] == f@;
        }
    }
    false
}

/// Adds a ground fact to the store unless it is already present, and reports
/// whether anything was added: the set semantics of the relation store.
pub(crate) fn insert_fact(store: &mut Vec<Fact>, f: Fact) -> (added: bool)
    requires
        fact_views(old(store)@).no_duplicates(),
    ensures
        added == !fact_views(old(store)@).to_set().contains(f@),
        added ==> fact_views(final(store)@) == fact_views(old(store)@).push(f@),
        !added ==> final(store)@ == old(store)@,
        fact_views(final(store)@).no_duplicates(),
        fact_views(final(store)@).to_set() == fact_views(old(store)@).to_set().insert(f@),
{
    let present = find_fact(store, &f);
    if present {
        proof {
            assert(fact_views(store@).to_set().insert(f@) =~= fact_views(store@).to_set());
        }
        false
    } else {
        let ghost olds = store@;
        store.push(f);
        proof {
            assert(fact_views(store@) =~= fact_views(olds).push(fact_views(store@).last()));
            let nv = fact_views(store@);
            let ov = fact_views(olds);
            assert forall|i: int, j: int| 0 <= i < nv.len() && 0 <= j < nv.len() && i != j implies
            nv[i] != nv[j] by {
                if i < ov.len() && j < ov.len() {
                    assert(ov[i] != ov[j]);
                } else if i < ov.len() {
                    if nv[i] == nv[j] {
                        assert(ov.contains(nv[j]));
                    }
                } else if j < ov.len() {
                    if nv[i] == nv[j] {
                        assert(ov.contains(nv[i]));
                    }
                }
            }
            assert forall|x: FactView| nv.to_set().contains(x) implies ov.to_set().insert(
                nv.last(),
            ).contains(x) by {
                let j = choose|j: int| 0 <= j < nv.len() && nv[j] == x;
                if j < ov.len() {
                    assert(ov[j] == x);
                    assert(ov.contains(x));
                }
            }
            assert forall|x: FactView| ov.to_set().insert(nv.last()).contains(x) implies
            nv.to_set().contains(x) by {
                if x == nv.last() {
                    assert(nv[nv.len() - 1] == x);
                } else {
                    let j = choose|j: int| 0 <= j < ov.len() && ov[j] == x;
                    assert(nv[j] == x);
                }
            }
            assert(fact_views(store@).to_set() =~= fact_views(olds).to_set().insert(nv.last()));
        }
        true
    }
}

/// Fires one rule against the store: its head under every binding that
/// satisfies its body, materialized as ground facts.
#[verifier::loop_isolation(false)]
fn fire_rule(store: &Vec<Fact>, rule: &Rule) -> (r: Result<Vec<Fact>, EngineError>)
    requires
        rule@.is_range_restricted(),
    ensures
        match r {
            Ok(v) => {
                &&& rule_heads(fact_views(store@).to_set(), rule@) == Ok::<
                    Set<FactView>,
                    EngineError,
                >(fact_views(v@).to_set())
                &&& forall|j: int| 0 <= j < v@.len() ==> (#[trigger] v@[j]@).is_ground()
                &&& forall|j: int|
                    0 <= j < v@.len() ==> (#[trigger] v@[j]@).name == rule@.head.name
                        && v@[j]@.vars.len() == rule@.head.vars.len()
                &&& forall|j: int, x: Seq<char>|
                    0 <= j < v@.len() && (#[trigger] v@[j]@.syms().contains(x)) ==> set_syms(
                        fact_views(store@).to_set(),
                    ).contains(x) || rule@.head.constants().contains(x)
            },
            Err(e) => rule_heads(fact_views(store@).to_set(), rule@) == Err::<
                Set<FactView>,
                EngineError,
            >(e),
        },
{
    let ghost s = fact_views(store@).to_set();
    proof {
        assert(rule@.body == rule.body@.map_values(|e: BodyExpression| e@));
        assert(rule@.head == rule.head@);
    }
    let bs = match eval_body(store, &rule.body) {
        Ok(bs) => bs,
        Err(e) => {
            return Err(e);
        },
    };
    let mut out: Vec<Fact> = Vec::new();
    let m = bs.len();
    let mut k: usize = 0;
    while k < m
        invariant
            k <= m,
            out@.len() == k as int,
            forall|j: int|
                0 <= j < k ==> (#[trigger] out@[j]@) == subst_fact_spec(rule@.head, bs@[j]@),
            forall|j: int| 0 <= j < k ==> (#[trigger] out@[j]@).is_ground(),
        decreases m - k,
    {
        proof {
            assert forall|x: Seq<char>| rule.head@.free_vars().contains(x) implies
            bs@[k as int]@.contains_key(x) by {
                assert(rule@.head.free_vars().contains(x));
                assert(rule@.body_fact_vars().contains(x));
                assert(body_pattern_vars(rule@.body).contains(x));
            }
        }
        let f = substitute(&rule.head, &bs[k]);
        out.push(f);
        k += 1;
    }
    proof {
        let tgt = binding_views(bs@).map(
            |b: Map<Seq<char>, Seq<char>>| subst_fact_spec(rule@.head, b),
        );
        assert forall|y: FactView| fact_views(out@).to_set().contains(y) implies tgt.contains(
            y,
        ) by {
            let j = choose|j: int| 0 <= j < fact_views(out@).len() && fact_views(out@)[j] == y;
            assert(out@[j]@ == y);
            assert(bviews_seq(bs@)[j] == bs@[j]@);
            assert(bviews_seq(bs@).contains(bs@[j]@));
            assert(binding_views(bs@).contains(bs@[j]@));
            assert(y == subst_fact_spec(rule@.head, bs@[j]@));
        }
        assert forall|y: FactView| tgt.contains(y) implies fact_views(out@).to_set().contains(
            y,
        ) by {
            let b = choose|b: Map<Seq<char>, Seq<char>>|
                binding_views(bs@).contains(b) && y == subst_fact_spec(rule@.head, b);
            let j = choose|j: int| 0 <= j < bviews_seq(bs@).len() && bviews_seq(bs@)[j] == b;
            assert(out@[j]@ == y);
            assert(fact_views(out@)[j] == y);
            assert(fact_views(out@).contains(y));
        }
        assert(fact_views(out@).to_set() =~= tgt);
        assert forall|j: int, x: Seq<char>|
            0 <= j < out@.len() && (#[trigger] out@[j]@.syms().contains(x)) implies set_syms(
            s,
        ).contains(x) || rule@.head.constants().contains(x) by {
            let i = choose|i: int|
                0 <= i < out@[j]@.vars.len() && (#[trigger] out@[j]@.vars[i]).sym() == x;
            let hv = rule@.head.vars[i];
            assert(out@[j]@.vars[i] == subst_term(hv, bs@[j]@));
            match hv {
                crate::ast::VariableView::Fixed(kc) => {
                    assert(rule@.head.constants().contains(kc));
                },
                crate::ast::VariableView::Free(xv) => {
                    assert(rule@.head.free_vars().contains(xv));
                    assert(body_pattern_vars(rule@.body).contains(xv));
                    assert(bs@[j]@.contains_key(xv));
                    assert(set_syms(s).contains(bs@[j]@[xv]));
                },
            }
        }
    }
    Ok(out)
}

/// Whether some rule's head has this fact's relation name and arity.
pub open spec fn has_head_key(rs: Seq<RuleView>, f: FactView) -> bool {
    exists|i: int|
        0 <= i < rs.len() && (#[trigger] rs[i]).head.name == f.name && rs[i].head.vars.len()
            == f.vars.len()
}

/// One pass of the naive fixpoint over all rules, each rule seeing the facts
/// the earlier ones added; reports whether the store grew.  The ghost set `u`
/// is a universe of constants that the store and the rule heads draw from; a
/// pass stays inside it, which bounds the fixpoint iteration.
#[verifier::loop_isolation(false)]
fn run_pass(store: &mut Vec<Fact>, rules: &Vec<Rule>, Ghost(u): Ghost<Set<Seq<char>>>) -> (r:
    Result<bool, EngineError>)
    requires
        store_wf(fact_views(old(store)@)),
        rules_restricted(rule_views(rules@)),
        forall|x: Seq<char>|
            set_syms(fact_views(old(store)@).to_set()).contains(x) ==> u.contains(x),
        forall|i: int, x: Seq<char>|
            0 <= i < rules@.len() && (#[trigger] rules@[i]@.head.constants().contains(x))
                ==> u.contains(x),
    ensures
        match r {
            Ok(changed) => {
                &&& store_wf(fact_views(final(store)@))
                &&& pass_from(fact_views(old(store)@).to_set(), rule_views(rules@), 0) == Ok::<
                    Set<FactView>,
                    EngineError,
                >(fact_views(final(store)@).to_set())
                &&& (changed <==> fact_views(final(store)@).to_set() != fact_views(
                    old(store)@,
                ).to_set())
                &&& (!changed ==> final(store)@ == old(store)@)
                &&& forall|x: Seq<char>|
                    set_syms(fact_views(final(store)@).to_set()).contains(x) ==> u.contains(x)
                &&& forall|f: FactView|
                    fact_views(final(store)@).to_set().contains(f) && !fact_views(
                        old(store)@,
                    ).to_set().contains(f) ==> has_head_key(rule_views(rules@), f)
                &&& forall|f: FactView|
                    fact_views(old(store)@).to_set().contains(f) ==> fact_views(
                        final(store)@,
                    ).to_set().contains(f)
            },
            Err(e) => pass_from(fact_views(old(store)@).to_set(), rule_views(rules@), 0) == Err::<
                Set<FactView>,
                EngineError,
            >(e),
        },
{
    let ghost start = fact_views(store@).to_set();
    let ghost rsv = rule_views(rules@);
    let mut changed = false;
    let n = rules.len();
    let mut i: usize = 0;
    while i < n
        invariant
            i <= n,
            store_wf(fact_views(store@)),
            pass_from(start, rsv, 0) == pass_from(fact_views(store@).to_set(), rsv, i as int),
            changed <==> fact_views(store@).to_set() != start,
            !changed ==> store@ == old(store)@,
            forall|x: Seq<char>| set_syms(fact_views(store@).to_set()).contains(x) ==> u.contains(x),
            forall|f: FactView|
                fact_views(store@).to_set().contains(f) && !start.contains(f) ==> has_head_key(
                    rsv,
                    f,
                ),
            forall|f: FactView| start.contains(f) ==> fact_views(store@).to_set().contains(f),
        decreases n - i,
    {
        proof {
            assert(rsv[i as int] == rules@[i as int]@);
        }
        let heads = match fire_rule(store, &rules[i]) {
            Ok(h) => h,
            Err(e) => {
                return Err(e);
            },
        };
        let ghost mid = fact_views(store@).to_set();
        let ghost hviews = fact_views(heads@);
        let hn = heads.len();
        let mut j: usize = 0;
        while j < hn
            invariant
                j <= hn,
                store_wf(fact_views(store@)),
                fact_views(store@).to_set() == mid.union(hviews.take(j as int).to_set()),
                changed <==> fact_views(store@).to_set() != start,
                !changed ==> store@ == old(store)@,
                forall|x: Seq<char>|
                    set_syms(fact_views(store@).to_set()).contains(x) ==> u.contains(x),
                forall|f: FactView|
                    fact_views(store@).to_set().contains(f) && !start.contains(f) ==> has_head_key(
                        rsv,
                        f,
                    ),
                forall|f: FactView| start.contains(f) ==> fact_views(store@).to_set().contains(f),
            decreases hn - j,
        {
            let ghost pre = fact_views(store@).to_set();
            let f = heads[j].clone();
            proof {
                assert(f@ == hviews[j as int]);
                assert(f@.is_ground());
            }
            let added = insert_fact(store, f);
            if added {
                changed = true;
            }
            proof {
                assert(hviews.take(j + 1) =~= hviews.take(j as int).push(hviews[j as int]));
                assert forall|y: FactView| fact_views(store@).to_set().contains(y) implies
                mid.union(hviews.take(j + 1).to_set()).contains(y) by {
                    if pre.contains(y) {
                        if !mid.contains(y) {
                            let jj = choose|jj: int|
                                0 <= jj < hviews.take(j as int).len() && hviews.take(
                                    j as int,
                                )[jj] == y;
                            assert(hviews.take(j + 1)[jj] == y);
                            assert(hviews.take(j + 1).contains(y));
                        }
                    } else {
                        assert(y == hviews[j as int]);
                        assert(hviews.take(j + 1)[j as int] == y);
                        assert(hviews.take(j + 1).contains(y));
                    }
                }
                assert forall|y: FactView| mid.union(hviews.take(j + 1).to_set()).contains(
                    y,
                ) implies fact_views(store@).to_set().contains(y) by {
                    if !mid.contains(y) {
                        let jj = choose|jj: int|
                            0 <= jj < hviews.take(j + 1).len() && #[trigger] hviews.take(
                                j + 1,
                            )[jj] == y;
                        if jj < j {
                            assert(hviews.take(j as int)[jj] == y);
                            assert(hviews.take(j as int).contains(y));
                            assert(pre.contains(y));
                        } else {
                            assert(y == hviews[j as int]);
                        }
                    }
                }
                assert(fact_views(store@).to_set() =~= mid.union(hviews.take(j + 1).to_set()));
                if added {
                    assert(!pre.contains(hviews[j as int]));
                    assert(fact_views(store@).to_set().contains(hviews[j as int]));
                    assert(fact_views(store@).to_set() != start);
                }
                assert forall|x: Seq<char>|
                    set_syms(fact_views(store@).to_set()).contains(x) implies u.contains(x) by {
                    let y = choose|y: FactView|
                        #[trigger] fact_views(store@).to_set().contains(y) && y.syms().contains(x);
                    if pre.contains(y) {
                        assert(set_syms(pre).contains(x));
                    } else {
                        assert(y == hviews[j as int]);
                        assert(set_syms(mid).contains(x) || rules@[i as int]@.head.constants(
                        ).contains(x));
                        if set_syms(mid).contains(x) {
                            let z = choose|z: FactView|
                                #[trigger] mid.contains(z) && z.syms().contains(x);
                            assert(pre.contains(z));
                            assert(set_syms(pre).contains(x));
                        }
                    }
                }
                assert forall|f2: FactView|
                    fact_views(store@).to_set().contains(f2) && !start.contains(f2) implies
                has_head_key(rsv, f2) by {
                    if !pre.contains(f2) {
                        assert(f2 == hviews[j as int]);
                        assert(f2.name == rules@[i as int]@.head.name && f2.vars.len()
                            == rules@[i as int]@.head.vars.len());
                        assert(rsv[i as int] == rules@[i as int]@);
                    }
                }
            }
            j += 1;
        }
        proof {
            assert(hviews.take(hn as int) =~= hviews);
            assert(fact_views(store@).to_set() =~= mid.union(hviews.to_set()));
            assert(rule_heads(mid, rsv[i as int]) == Ok::<Set<FactView>, EngineError>(
                hviews.to_set(),
            ));
            assert(pass_from(mid, rsv, i as int) == pass_from(
                mid.union(hviews.to_set()),
                rsv,
                i + 1,
            ));
        }
        i += 1;
    }
    proof {
        assert(pass_from(fact_views(store@).to_set(), rsv, n as int) == Ok::<
            Set<FactView>,
            EngineError,
        >(fact_views(store@).to_set()));
    }
    Ok(changed)
}

/// Everything a filtered sequence holds comes from the sequence itself.
pub proof fn lemma_filter_subset<A>(s: Seq<A>, pred: spec_fn(A) -> bool)
    ensures
        forall|x: A| #[trigger] s.filter(pred).contains(x) ==> s.contains(x),
    decreases s.len(),
{
    reveal(Seq::filter);
    if s.len() > 0 {
        let t = s.drop_last();
        lemma_filter_subset(t, pred);
        assert forall|x: A| #[trigger] s.filter(pred).contains(x) implies s.contains(x) by {
            let i = choose|i: int| 0 <= i < s.filter(pred).len() && s.filter(pred)[i] == x;
            if pred(s.last()) && i == s.filter(pred).len() - 1 {
                assert(s[s.len() - 1] == x);
            } else {
                assert(t.filter(pred)[i] == x);
                assert(t.filter(pred).contains(x));
                let j = choose|j: int| 0 <= j < t.len() && t[j] == x;
                assert(s[j] == x);
            }
        }
    }
}

/// Filtering keeps a duplicate-free sequence duplicate free.
pub proof fn lemma_filter_no_duplicates<A>(s: Seq<A>, pred: spec_fn(A) -> bool)
    requires
        s.no_duplicates(),
    ensures
        s.filter(pred).no_duplicates(),
    decreases s.len(),
{
    reveal(Seq::filter);
    if s.len() > 0 {
        let t = s.drop_last();
        assert forall|i: int, j: int|
            0 <= i < t.len() && 0 <= j < t.len() && i != j implies t[i] != t[j] by {
            assert(s[i] == t[i] && s[j] == t[j]);
        }
        lemma_filter_no_duplicates(t, pred);
        if pred(s.last()) {
            lemma_filter_subset(t, pred);
            if t.filter(pred).contains(s.last()) {
                assert(t.contains(s.last()));
                let j = choose|j: int| 0 <= j < t.len() && t[j] == s.last();
                assert(s[j] == s[s.len() - 1]);
                assert(false);
            }
            let f = s.filter(pred);
            let ft = t.filter(pred);
            assert(f =~= ft.push(s.last()));
            assert forall|i: int, j: int|
                0 <= i < f.len() && 0 <= j < f.len() && i != j implies f[i] != f[j] by {
                if i < ft.len() && j < ft.len() {
                    assert(ft[i] != ft[j]);
                } else if i < ft.len() {
                    if f[i] == f[j] {
                        assert(ft.contains(f[j]));
                    }
                } else if j < ft.len() {
                    if f[i] == f[j] {
                        assert(ft.contains(f[i]));
                    }
                }
            }
        }
    }
}

/// Filtering a sequence and filtering the set it stands for agree.
pub proof fn lemma_seq_filter_to_set<A>(s: Seq<A>, pred: spec_fn(A) -> bool)
    ensures
        s.filter(pred).to_set() == s.to_set().filter(pred),
    decreases s.len(),
{
    lemma_filter_subset(s, pred);
    assert forall|x: A| s.filter(pred).to_set().contains(x) implies s.to_set().filter(
        pred,
    ).contains(x) by {
        let i = choose|i: int| 0 <= i < s.filter(pred).len() && s.filter(pred)[i] == x;
        Seq::lemma_filter_pred(s, pred, i);
        assert(s.contains(x));
    }
    assert forall|x: A| s.to_set().filter(pred).contains(x) implies s.filter(
        pred,
    ).to_set().contains(x) by {
        let i = choose|i: int| 0 <= i < s.len() && s[i] == x;
        Seq::lemma_filter_contains(s, pred, i);
    }
    assert(s.filter(pred).to_set() =~= s.to_set().filter(pred));
}

/// Predicates that agree on a sequence's elements filter it identically.
pub proof fn lemma_filter_congruence<A>(s: Seq<A>, p1: spec_fn(A) -> bool, p2: spec_fn(A) -> bool)
    requires
        forall|i: int| 0 <= i < s.len() ==> p1(#[trigger] s[i]) == p2(s[i]),
    ensures
        s.filter(p1) == s.filter(p2),
    decreases s.len(),
{
    reveal(Seq::filter);
    if s.len() > 0 {
        let t = s.drop_last();
        assert forall|i: int| 0 <= i < t.len() implies p1(#[trigger] t[i]) == p2(t[i]) by {
            assert(t[i] == s[i]);
        }
        lemma_filter_congruence(t, p1, p2);
        assert(p1(s.last()) == p2(s.last()));
    }
}

/// How many entries of `cand` are missing from `s`: the measure that shrinks
/// as the fixpoint loop inserts facts.
spec fn count_absent<A>(cand: Seq<A>, s: Set<A>) -> nat
    decreases cand.len(),
{
    if cand.len() == 0 {
        0
    } else {
        count_absent(cand.drop_last(), s) + (if s.contains(cand.last()) {
            0nat
        } else {
            1nat
        })
    }
}

/// Growing the set can only lower the count of missing entries.
proof fn lemma_count_absent_mono<A>(cand: Seq<A>, s: Set<A>, s2: Set<A>)
    requires
        forall|x: A| s.contains(x) ==> s2.contains(x),
    ensures
        count_absent(cand, s2) <= count_absent(cand, s),
    decreases cand.len(),
{
    if cand.len() > 0 {
        lemma_count_absent_mono(cand.drop_last(), s, s2);
    }
}

/// Adding to the set an entry of `cand` that was missing strictly lowers the
/// count.
proof fn lemma_count_absent_strict<A>(cand: Seq<A>, s: Set<A>, s2: Set<A>, f: A)
    requires
        forall|x: A| s.contains(x) ==> s2.contains(x),
        !s.contains(f),
        s2.contains(f),
        cand.contains(f),
    ensures
        count_absent(cand, s2) < count_absent(cand, s),
    decreases cand.len(),
{
    let i = choose|i: int| 0 <= i < cand.len() && cand[i] == f;
    if cand.last() == f {
        lemma_count_absent_mono(cand.drop_last(), s, s2);
    } else {
        assert(i < cand.len() - 1);
        assert(cand.drop_last()[i] == f);
        assert(cand.drop_last().contains(f));
        lemma_count_absent_strict(cand.drop_last(), s, s2, f);
    }
}

/// The texts of a fact's terms, as a sequence.
spec fn syms_seq_of_fact(f: FactView) -> Seq<Seq<char>> {
    f.vars.map_values(|t: crate::ast::VariableView| t.sym())
}

/// The texts of all terms of all facts of a store.
spec fn syms_seq_of_store(fs: Seq<FactView>) -> Seq<Seq<char>>
    decreases fs.len(),
{
    if fs.len() == 0 {
        Seq::empty()
    } else {
        syms_seq_of_store(fs.drop_last()) + syms_seq_of_fact(fs.last())
    }
}

/// The texts of all head terms of all rules.
spec fn head_syms_seq(rs: Seq<RuleView>) -> Seq<Seq<char>>
    decreases rs.len(),
{
    if rs.len() == 0 {
        Seq::empty()
    } else {
        head_syms_seq(rs.drop_last()) + syms_seq_of_fact(rs.last().head)
    }
}

/// Every term text of every fact of the store occurs in its text sequence.
proof fn lemma_store_syms_seq(fs: Seq<FactView>)
    ensures
        forall|i: int, x: Seq<char>|
            0 <= i < fs.len() && (#[trigger] fs[i].syms().contains(x)) ==> syms_seq_of_store(
                fs,
            ).contains(x),
    decreases fs.len(),
{
    if fs.len() > 0 {
        let t = fs.drop_last();
        lemma_store_syms_seq(t);
        assert forall|i: int, x: Seq<char>|
            0 <= i < fs.len() && (#[trigger] fs[i].syms().contains(x)) implies syms_seq_of_store(
            fs,
        ).contains(x) by {
            if i < fs.len() - 1 {
                assert(t[i] == fs[i]);
                let j = choose|j: int|
                    0 <= j < syms_seq_of_store(t).len() && syms_seq_of_store(t)[j] == x;
                assert(syms_seq_of_store(fs)[j] == x);
            } else {
                let j = choose|j: int|
                    0 <= j < fs[i].vars.len() && (#[trigger] fs[i].vars[j]).sym() == x;
                assert(syms_seq_of_fact(fs.last())[j] == x);
                assert(syms_seq_of_store(fs)[syms_seq_of_store(t).len() + j] == x);
            }
        }
    }
}

/// Every head term text of every rule occurs in the head text sequence.
proof fn lemma_head_syms_seq(rs: Seq<RuleView>)
    ensures
        forall|i: int, x: Seq<char>|
            0 <= i < rs.len() && (#[trigger] rs[i].head.syms().contains(x)) ==> head_syms_seq(
                rs,
            ).contains(x),
    decreases rs.len(),
{
    if rs.len() > 0 {
        let t = rs.drop_last();
        lemma_head_syms_seq(t);
        assert forall|i: int, x: Seq<char>|
            0 <= i < rs.len() && (#[trigger] rs[i].head.syms().contains(x)) implies head_syms_seq(
            rs,
        ).contains(x) by {
            if i < rs.len() - 1 {
                assert(t[i] == rs[i]);
                let j = choose|j: int| 0 <= j < head_syms_seq(t).len() && head_syms_seq(t)[j] == x;
                assert(head_syms_seq(rs)[j] == x);
            } else {
                let j = choose|j: int|
                    0 <= j < rs[i].head.vars.len() && (#[trigger] rs[i].head.vars[j]).sym() == x;
                assert(syms_seq_of_fact(rs.last().head)[j] == x);
                assert(head_syms_seq(rs)[head_syms_seq(t).len() + j] == x);
            }
        }
    }
}

/// One tuple extended by each constant of the universe.
spec fn with_each_const(t: Seq<crate::ast::VariableView>, us: Seq<Seq<char>>) -> Seq<
    Seq<crate::ast::VariableView>,
> {
    us.map_values(|k: Seq<char>| t.push(crate::ast::VariableView::Fixed(k)))
}

/// Each tuple of the collection extended by each constant of the universe.
spec fn extend_tuples(ts: Seq<Seq<crate::ast::VariableView>>, us: Seq<Seq<char>>) -> Seq<
    Seq<crate::ast::VariableView>,
>
    decreases ts.len(),
{
    if ts.len() == 0 {
        Seq::empty()
    } else {
        extend_tuples(ts.drop_last(), us) + with_each_const(ts.last(), us)
    }
}

/// All length-`n` tuples of constants drawn from the universe.
spec fn tuple_seqs(us: Seq<Seq<char>>, n: nat) -> Seq<Seq<crate::ast::VariableView>>
    decreases n,
{
    if n == 0 {
        Seq::empty().push(Seq::empty())
    } else {
        extend_tuples(tuple_seqs(us, (n - 1) as nat), us)
    }
}

/// Extending any collected tuple stays within the extension of the
/// collection.
proof fn lemma_extend_tuples_contains(
    ts: Seq<Seq<crate::ast::VariableView>>,
    us: Seq<Seq<char>>,
    t: Seq<crate::ast::VariableView>,
    v: Seq<crate::ast::VariableView>,
)
    requires
        ts.contains(t),
        with_each_const(t, us).contains(v),
    ensures
        extend_tuples(ts, us).contains(v),
    decreases ts.len(),
{
    let i = choose|i: int| 0 <= i < ts.len() && ts[i] == t;
    let j = choose|j: int| 0 <= j < with_each_const(t, us).len() && with_each_const(t, us)[j] == v;
    if ts.last() == t {
        assert(extend_tuples(ts, us)[extend_tuples(ts.drop_last(), us).len() + j] == v);
    } else {
        assert(i < ts.len() - 1);
        assert(ts.drop_last()[i] == t);
        assert(ts.drop_last().contains(t));
        lemma_extend_tuples_contains(ts.drop_last(), us, t, v);
        let k = choose|k: int|
            0 <= k < extend_tuples(ts.drop_last(), us).len() && extend_tuples(
                ts.drop_last(),
                us,
            )[k] == v;
        assert(extend_tuples(ts, us)[k] == v);
    }
}

/// Every all-constant tuple over the universe is collected.
proof fn lemma_tuple_seqs_complete(us: Seq<Seq<char>>, vs: Seq<crate::ast::VariableView>)
    requires
        forall|i: int|
            0 <= i < vs.len() ==> (#[trigger] vs[i]) is Fixed && us.contains(vs[i].sym()),
    ensures
        tuple_seqs(us, vs.len() as nat).contains(vs),
    decreases vs.len(),
{
    if vs.len() == 0 {
        assert(tuple_seqs(us, 0)[0] == vs);
    } else {
        let t = vs.drop_last();
        lemma_tuple_seqs_complete(us, t);
        let k = vs.last().sym();
        let j = choose|j: int| 0 <= j < us.len() && us[j] == k;
        assert(vs.last() == crate::ast::VariableView::Fixed(k));
        assert(with_each_const(t, us)[j] == t.push(crate::ast::VariableView::Fixed(us[j])));
        assert(t.push(crate::ast::VariableView::Fixed(us[j])) =~= vs);
        assert(with_each_const(t, us).contains(vs));
        lemma_extend_tuples_contains(tuple_seqs(us, t.len() as nat), us, t, vs);
    }
}

/// The candidate facts of one head: its name over every tuple.
spec fn tuple_facts(name: Seq<char>, ts: Seq<Seq<crate::ast::VariableView>>) -> Seq<FactView> {
    ts.map_values(|t: Seq<crate::ast::VariableView>| FactView { name: name, vars: t })
}

/// Every ground fact a rule head could derive over the universe, for every
/// rule: the finite enumeration that bounds the fixpoint.
spec fn cand_for_rules(rs: Seq<RuleView>, us: Seq<Seq<char>>) -> Seq<FactView>
    decreases rs.len(),
{
    if rs.len() == 0 {
        Seq::empty()
    } else {
        cand_for_rules(rs.drop_last(), us) + tuple_facts(
            rs.last().head.name,
            tuple_seqs(us, rs.last().head.vars.len()),
        )
    }
}

/// A ground fact with some rule's head key, over constants of the universe,
/// is among the candidates.
proof fn lemma_cand_contains(rs: Seq<RuleView>, us: Seq<Seq<char>>, f: FactView)
    requires
        has_head_key(rs, f),
        f.is_ground(),
        forall|x: Seq<char>| f.syms().contains(x) ==> us.contains(x),
    ensures
        cand_for_rules(rs, us).contains(f),
    decreases rs.len(),
{
    let i = choose|i: int|
        0 <= i < rs.len() && (#[trigger] rs[i]).head.name == f.name && rs[i].head.vars.len()
            == f.vars.len();
    if i < rs.len() - 1 {
        assert(rs.drop_last()[i] == rs[i]);
        assert(has_head_key(rs.drop_last(), f));
        lemma_cand_contains(rs.drop_last(), us, f);
        let k = choose|k: int|
            0 <= k < cand_for_rules(rs.drop_last(), us).len() && cand_for_rules(
                rs.drop_last(),
                us,
            )[k] == f;
        assert(cand_for_rules(rs, us)[k] == f);
    } else {
        assert forall|j: int| 0 <= j < f.vars.len() implies (#[trigger] f.vars[j]) is Fixed
            && us.contains(f.vars[j].sym()) by {
            assert(f.syms().contains(f.vars[j].sym()));
        }
        lemma_tuple_seqs_complete(us, f.vars);
        let last = rs.last();
        let ts = tuple_seqs(us, last.head.vars.len());
        let j = choose|j: int| 0 <= j < ts.len() && ts[j] == f.vars;
        assert(tuple_facts(last.head.name, ts)[j] == FactView { name: f.name, vars: f.vars });
        assert(FactView { name: f.name, vars: f.vars } == f);
        assert(cand_for_rules(rs, us)[cand_for_rules(rs.drop_last(), us).len() + j] == f);
    }
}

/// Runs the naive fixpoint: repeats passes over the rules until one adds
/// nothing, starting from the given base facts.  Terminates because every
/// derived fact is one of finitely many candidates: a rule-head relation
/// filled with constants already present in the base store or the rule heads.
#[verifier::loop_isolation(false)]
pub fn saturate(base: Vec<Fact>, rules: &Vec<Rule>) -> (r: Result<Vec<Fact>, EngineError>)
    requires
        store_wf(fact_views(base@)),
        rules_restricted(rule_views(rules@)),
    ensures
        match r {
            Ok(v) => {
                &&& store_wf(fact_views(v@))
                &&& is_saturation(
                    fact_views(base@).to_set(),
                    rule_views(rules@),
                    Ok(fact_views(v@).to_set()),
                )
                &&& forall|f: FactView|
                    fact_views(base@).to_set().contains(f) ==> fact_views(v@).to_set().contains(f)
            },
            Err(e) => is_saturation(fact_views(base@).to_set(), rule_views(rules@), Err(e)),
        },
{
    let ghost base_set = fact_views(base@).to_set();
    let ghost rsv = rule_views(rules@);
    let ghost us = syms_seq_of_store(fact_views(base@)) + head_syms_seq(rsv);
    let ghost u = us.to_set();
    let ghost cand = cand_for_rules(rsv, us);
    proof {
        lemma_store_syms_seq(fact_views(base@));
        lemma_head_syms_seq(rsv);
        assert forall|x: Seq<char>| set_syms(base_set).contains(x) implies u.contains(x) by {
            let y = choose|y: FactView| #[trigger] base_set.contains(y) && y.syms().contains(x);
            let i = choose|i: int|
                0 <= i < fact_views(base@).len() && fact_views(base@)[i] == y;
            assert(fact_views(base@)[i].syms().contains(x));
            let j = choose|j: int|
                0 <= j < syms_seq_of_store(fact_views(base@)).len() && syms_seq_of_store(
                    fact_views(base@),
                )[j] == x;
            assert(us[j] == x);
            assert(us.contains(x));
        }
        assert forall|i: int, x: Seq<char>|
            0 <= i < rules@.len() && (#[trigger] rules@[i]@.head.constants().contains(x)) implies
        u.contains(x) by {
            assert(rsv[i] == rules@[i]@);
            let j = choose|j: int|
                0 <= j < rsv[i].head.vars.len() && rsv[i].head.vars[j]
                    == crate::ast::VariableView::Fixed(x);
            assert(rsv[i].head.vars[j].sym() == x);
            assert(rsv[i].head.syms().contains(x));
            let k = choose|k: int| 0 <= k < head_syms_seq(rsv).len() && head_syms_seq(rsv)[k] == x;
            assert(us[syms_seq_of_store(fact_views(base@)).len() + k] == x);
            assert(us.contains(x));
        }
    }
    let mut store = base;
    let ghost mut n_passes: nat = 0;
    let mut changed = true;
    while changed
        invariant
            store_wf(fact_views(store@)),
            passes(base_set, rsv, n_passes) == Ok::<Set<FactView>, EngineError>(
                fact_views(store@).to_set(),
            ),
            !changed ==> pass_from(fact_views(store@).to_set(), rsv, 0) == Ok::<
                Set<FactView>,
                EngineError,
            >(fact_views(store@).to_set()),
            forall|x: Seq<char>| set_syms(fact_views(store@).to_set()).contains(x) ==> u.contains(x),
            forall|f: FactView|
                fact_views(store@).to_set().contains(f) && !base_set.contains(f) ==> has_head_key(
                    rsv,
                    f,
                ),
            forall|f: FactView| base_set.contains(f) ==> fact_views(store@).to_set().contains(f),
        decreases count_absent(cand, fact_views(store@).to_set()), (if changed {
            1int
        } else {
            0int
        }),
    {
        let ghost pre = fact_views(store@).to_set();
        match run_pass(&mut store, rules, Ghost(u)) {
            Ok(c2) => {
                changed = c2;
                proof {
                    let cur = fact_views(store@).to_set();
                    n_passes = n_passes + 1;
                    assert(passes(base_set, rsv, n_passes) == Ok::<Set<FactView>, EngineError>(
                        cur,
                    ));
                    if c2 {
                        assert(cur != pre);
                        if forall|f: FactView| cur.contains(f) ==> pre.contains(f) {
                            assert(cur =~= pre);
                            assert(false);
                        }
                        let f = choose|f: FactView| cur.contains(f) && !pre.contains(f);
                        assert(has_head_key(rsv, f));
                        let i = choose|i: int|
                            0 <= i < fact_views(store@).len() && fact_views(store@)[i] == f;
                        assert(f.is_ground());
                        assert forall|x: Seq<char>| f.syms().contains(x) implies us.contains(
                            x,
                        ) by {
                            assert(cur.contains(f) && f.syms().contains(x));
                            assert(set_syms(cur).contains(x));
                            assert(u.contains(x));
                        }
                        lemma_cand_contains(rsv, us, f);
                        lemma_count_absent_strict(cand, pre, cur, f);
                    }
                }
            },
            Err(e) => {
                proof {
                    assert(passes(base_set, rsv, n_passes + 1) == Err::<
                        Set<FactView>,
                        EngineError,
                    >(e));
                }
                return Err(e);
            },
        }
    }
    Ok(store)
}

/// The relation keys (name and arity) that the fact patterns of a body
/// mention.
pub open spec fn body_keys(body: Seq<BodyExpressionView>) -> Set<(Seq<char>, nat)> {
    Set::new(
        |k: (Seq<char>, nat)|
            exists|j: int|
                0 <= j < body.len() && ((#[trigger] body[j]) matches BodyExpressionView::Fact(p)
                    && p.key() == k),
    )
}

/// The relation keys (name and arity) that a rule's body fact patterns
/// mention.
pub open spec fn rule_body_keys(r: RuleView) -> Set<(Seq<char>, nat)> {
    body_keys(r.body)
}

/// The keys one dependency step reaches: body keys of rules whose head key is
/// already reached.
pub open spec fn reach_step(rs: Seq<RuleView>, ks: Set<(Seq<char>, nat)>) -> Set<
    (Seq<char>, nat),
> {
    Set::new(
        |k: (Seq<char>, nat)|
            exists|i: int|
                0 <= i < rs.len() && ks.contains((#[trigger] rs[i]).head.key())
                    && rule_body_keys(rs[i]).contains(k),
    )
}

/// The set of relation keys reachable from `k0` through the rules: it holds
/// `k0`, is closed under the dependency step, and is contained in every set
/// with those two properties, which makes it unique.
pub open spec fn is_reach_closure(
    rs: Seq<RuleView>,
    k0: (Seq<char>, nat),
    ks: Set<(Seq<char>, nat)>,
) -> bool {
    &&& ks.contains(k0)
    &&& reach_step(rs, ks).subset_of(ks)
    &&& forall|c: Set<(Seq<char>, nat)>| #[trigger]
        c.contains(k0) && reach_step(rs, c).subset_of(c) ==> ks.subset_of(c)
}

/// The views of a vector of relation keys.
pub open spec fn key_views(ks: Seq<(String, usize)>) -> Seq<(Seq<char>, nat)> {
    ks.map_values(|p: (String, usize)| (p.0@, p.1 as nat))
}

/// The set of relation keys a vector of keys stands for.
pub open spec fn key_set(ks: Seq<(String, usize)>) -> Set<(Seq<char>, nat)> {
    key_views(ks).to_set()
}

/// The body keys of one rule, as a sequence.
spec fn rule_body_keys_seq(body: Seq<BodyExpressionView>) -> Seq<(Seq<char>, nat)>
    decreases body.len(),
{
    if body.len() == 0 {
        Seq::empty()
    } else {
        rule_body_keys_seq(body.drop_last()) + (match body.last() {
            BodyExpressionView::Fact(p) => Seq::empty().push(p.key()),
            BodyExpressionView::Equals(_) => Seq::empty(),
        })
    }
}

/// The body keys of all rules, as a sequence: the finite enumeration that
/// bounds the reachability loop.
spec fn all_body_keys_seq(rs: Seq<RuleView>) -> Seq<(Seq<char>, nat)>
    decreases rs.len(),
{
    if rs.len() == 0 {
        Seq::empty()
    } else {
        all_body_keys_seq(rs.drop_last()) + rule_body_keys_seq(rs.last().body)
    }
}

/// A fact pattern's key occurs in its body's key sequence.
proof fn lemma_rule_body_keys_seq(body: Seq<BodyExpressionView>)
    ensures
        forall|k: (Seq<char>, nat)| #[trigger]
            body_keys(body).contains(k) ==> rule_body_keys_seq(body).contains(k),
    decreases body.len(),
{
    if body.len() > 0 {
        let t = body.drop_last();
        lemma_rule_body_keys_seq(t);
        assert forall|k: (Seq<char>, nat)| #[trigger] body_keys(body).contains(k) implies
        rule_body_keys_seq(body).contains(k) by {
            let j = choose|j: int|
                0 <= j < body.len() && ((#[trigger] body[j]) matches BodyExpressionView::Fact(p)
                    && p.key() == k);
            if j < body.len() - 1 {
                assert(t[j] == body[j]);
                assert(body_keys(t).contains(k));
                let jj = choose|jj: int|
                    0 <= jj < rule_body_keys_seq(t).len() && rule_body_keys_seq(t)[jj] == k;
                assert(rule_body_keys_seq(body)[jj] == k);
            } else {
                assert(rule_body_keys_seq(body)[rule_body_keys_seq(t).len() as int] == k);
            }
        }
    }
}

/// Every body key of every rule occurs in the full key sequence.
proof fn lemma_all_body_keys_seq(rs: Seq<RuleView>)
    ensures
        forall|i: int, k: (Seq<char>, nat)|
            0 <= i < rs.len() && (#[trigger] rule_body_keys(rs[i]).contains(k))
                ==> all_body_keys_seq(rs).contains(k),
    decreases rs.len(),
{
    if rs.len() > 0 {
        let t = rs.drop_last();
        lemma_all_body_keys_seq(t);
        assert forall|i: int, k: (Seq<char>, nat)|
            0 <= i < rs.len() && (#[trigger] rule_body_keys(rs[i]).contains(k)) implies
        all_body_keys_seq(rs).contains(k) by {
            if i < rs.len() - 1 {
                assert(t[i] == rs[i]);
                assert(rule_body_keys(t[i]).contains(k));
                let jj = choose|jj: int|
                    0 <= jj < all_body_keys_seq(t).len() && all_body_keys_seq(t)[jj] == k;
                assert(all_body_keys_seq(rs)[jj] == k);
            } else {
                lemma_rule_body_keys_seq(rs[i].body);
                assert(body_keys(rs[i].body).contains(k));
                assert(rs.last().body == rs[i].body);
                let jj = choose|jj: int|
                    0 <= jj < rule_body_keys_seq(rs[i].body).len() && rule_body_keys_seq(
                        rs[i].body,
                    )[jj] == k;
                assert(all_body_keys_seq(rs)[all_body_keys_seq(t).len() + jj] == k);
            }
        }
    }
}

/// Whether a key vector holds the given relation key.
fn contains_key(ks: &Vec<(String, usize)>, name: &String, arity: usize) -> (r: bool)
    ensures
        r == key_set(ks@).contains((name@, arity as nat)),
{
    let n = ks.len();
    let mut i: usize = 0;
    while i < n
        invariant
            n == ks@.len(),
            i <= n,
            forall|j: int| 0 <= j < i ==> key_views(ks@)[j] != (name@, arity as nat),
        decreases n - i,
    {
        if ks[i].0 == *name && ks[i].1 == arity {
            proof {
                assert(key_views(ks@)[i as int] == (name@, arity as nat));
            }
            return true;
        }
        proof {
            assert(key_views(ks@)[i as int] == (ks@[i as int].0@, ks@[i as int].1 as nat));
        }
        i += 1;
    }
    proof {
        if key_set(ks@).contains((name@, arity as nat)) {
            let j = choose|j: int|
                0 <= j < key_views(ks@).len() && key_views(ks@)[j] == (name@, arity as nat);
        }
    }
    false
}

/// Computes the closure of relation keys reachable from the given key through
/// the rule store: the relations a query of that key depends on.
#[verifier::loop_isolation(false)]
pub fn reachable_keys(rules: &Vec<Rule>, name: &String, arity: usize) -> (r: Vec<(String, usize)>)
    ensures
        is_reach_closure(rule_views(rules@), (name@, arity as nat), key_set(r@)),
{
    let ghost rsv = rule_views(rules@);
    let ghost k0 = (name@, arity as nat);
    let ghost cand = all_body_keys_seq(rsv);
    proof {
        lemma_all_body_keys_seq(rsv);
    }
    let mut reached: Vec<(String, usize)> = Vec::new();
    reached.push((name.clone(), arity));
    proof {
        assert(key_views(reached@)[0] == k0);
        assert(key_set(reached@).contains(k0));
    }
    let mut changed = true;
    while changed
        invariant
            key_set(reached@).contains(k0),
            forall|c: Set<(Seq<char>, nat)>| #[trigger]
                c.contains(k0) && reach_step(rsv, c).subset_of(c) ==> key_set(
                    reached@,
                ).subset_of(c),
            !changed ==> reach_step(rsv, key_set(reached@)).subset_of(key_set(reached@)),
        decreases count_absent(cand, key_set(reached@)), (if changed {
            1int
        } else {
            0int
        }),
    {
        changed = false;
        let ghost snap = reached@;
        let ghost ks0 = key_set(reached@);
        let n = rules.len();
        let mut i: usize = 0;
        while i < n
            invariant
                i <= n,
                key_set(reached@).contains(k0),
                forall|c: Set<(Seq<char>, nat)>| #[trigger]
                    c.contains(k0) && reach_step(rsv, c).subset_of(c) ==> key_set(
                        reached@,
                    ).subset_of(c),
                !changed ==> reached@ == snap,
                !changed ==> key_set(reached@) == ks0,
                !changed ==> forall|ii: int|
                    0 <= ii < i && ks0.contains((#[trigger] rsv[ii]).head.key())
                        ==> rule_body_keys(rsv[ii]).subset_of(ks0),
                changed ==> count_absent(cand, key_set(reached@)) < count_absent(cand, ks0),
                forall|x: (Seq<char>, nat)| ks0.contains(x) ==> key_set(reached@).contains(x),
            decreases n - i,
        {
            let head_in = contains_key(&reached, &rules[i].head.name, rules[i].head.vars.len());
            let ghost changed0 = changed;
            proof {
                assert(rsv[i as int] == rules@[i as int]@);
                assert(rsv[i as int].head.key() == (
                    rules@[i as int].head.name@,
                    rules@[i as int].head.vars@.len() as nat,
                ));
            }
            if head_in {
                let bn = rules[i].body.len();
                let mut j: usize = 0;
                while j < bn
                    invariant
                        j <= bn,
                        changed0 ==> changed,
                        bn == rules@[i as int].body@.len(),
                        i < n,
                        key_set(reached@).contains(k0),
                        forall|c: Set<(Seq<char>, nat)>| #[trigger]
                            c.contains(k0) && reach_step(rsv, c).subset_of(c) ==> key_set(
                                reached@,
                            ).subset_of(c),
                        !changed ==> reached@ == snap,
                        !changed ==> key_set(reached@) == ks0,
                        !changed ==> forall|jj: int|
                            0 <= jj < j ==> ((#[trigger] rsv[i as int].body[jj]) matches
                                BodyExpressionView::Fact(p) ==> ks0.contains(p.key())),
                        changed ==> count_absent(cand, key_set(reached@)) < count_absent(
                            cand,
                            ks0,
                        ),
                        forall|x: (Seq<char>, nat)|
                            ks0.contains(x) ==> key_set(reached@).contains(x),
                        key_set(reached@).contains(rsv[i as int].head.key()),
                    decreases bn - j,
                {
                    proof {
                        assert(rsv[i as int].body[j as int] == rules@[i as int].body@[j as int]@);
                    }
                    match &rules[i].body[j] {
                        BodyExpression::Fact(p) => {
                            let present = contains_key(&reached, &p.name, p.vars.len());
                            proof {
                                assert(p@.key() == (p.name@, p.vars@.len() as nat));
                                assert(rsv[i as int].body[j as int]
                                    == BodyExpressionView::Fact(p@));
                            }
                            if !present {
                                let ghost pre_seq = reached@;
                                let ghost pre_set = key_set(reached@);
                                let ghost pre_count = count_absent(cand, pre_set);
                                reached.push((p.name.clone(), p.vars.len()));
                                proof {
                                    let nk = p@.key();
                                    assert(key_views(reached@) =~= key_views(pre_seq).push(nk));
                                    assert forall|x: (Seq<char>, nat)|
                                        key_set(reached@).contains(x) implies pre_set.contains(x)
                                        || x == nk by {
                                        let jj = choose|jj: int|
                                            0 <= jj < key_views(reached@).len() && key_views(
                                                reached@,
                                            )[jj] == x;
                                        if jj < key_views(reached@).len() - 1 {
                                            assert(key_views(pre_seq)[jj] == x);
                                            assert(key_views(pre_seq).contains(x));
                                        }
                                    }
                                    assert(key_views(reached@)[key_views(reached@).len() - 1]
                                        == nk);
                                    assert(key_set(reached@).contains(nk));
                                    assert forall|x: (Seq<char>, nat)| pre_set.contains(
                                        x,
                                    ) implies key_set(reached@).contains(x) by {
                                        let jj = choose|jj: int|
                                            0 <= jj < key_views(pre_seq).len()
                                                && key_views(pre_seq)[jj] == x;
                                        assert(key_views(reached@)[jj] == x);
                                    }
                                    assert(rule_body_keys(rsv[i as int]).contains(nk));
                                    assert(all_body_keys_seq(rsv).contains(nk));
                                    assert forall|c: Set<(Seq<char>, nat)>| #[trigger]
                                        c.contains(k0) && reach_step(rsv, c).subset_of(
                                            c,
                                        ) implies key_set(reached@).subset_of(c) by {
                                        assert(pre_set.subset_of(c));
                                        assert(c.contains(rsv[i as int].head.key()));
                                        assert(reach_step(rsv, c).contains(nk));
                                        assert(c.contains(nk));
                                        assert forall|x: (Seq<char>, nat)|
                                            key_set(reached@).contains(x) implies c.contains(
                                            x,
                                        ) by {
                                            if x != nk {
                                                assert(pre_set.contains(x));
                                            }
                                        }
                                    }
                                    if !changed {
                                        assert(pre_count <= count_absent(cand, ks0)) by {
                                            lemma_count_absent_mono(cand, ks0, pre_set);
                                        }
                                    }
                                    lemma_count_absent_strict(
                                        cand,
                                        pre_set,
                                        key_set(reached@),
                                        nk,
                                    );
                                    if changed {
                                        lemma_count_absent_mono(cand, pre_set, key_set(reached@));
                                    }
                                }
                                changed = true;
                            }
                        },
                        BodyExpression::Equals(_) => {},
                    }
                    j += 1;
                }
                proof {
                    if !changed {
                        assert forall|kk: (Seq<char>, nat)|
                            rule_body_keys(rsv[i as int]).contains(kk) implies ks0.contains(
                            kk,
                        ) by {
                            let jj = choose|jj: int|
                                0 <= jj < rsv[i as int].body.len() && ((#[trigger] rsv[i as int].body[jj]) matches
                                    BodyExpressionView::Fact(p) && p.key() == kk);
                        }
                    }
                }
            }
            proof {
                if !changed {
                    assert forall|ii: int|
                        0 <= ii < i + 1 && ks0.contains((#[trigger] rsv[ii]).head.key()) implies
                    rule_body_keys(rsv[ii]).subset_of(ks0) by {
                        if ii == i {
                            assert(head_in);
                            assert forall|kk: (Seq<char>, nat)|
                                rule_body_keys(rsv[ii]).contains(kk) implies ks0.contains(kk) by {
                                let jj = choose|jj: int|
                                    0 <= jj < rsv[ii].body.len() && ((#[trigger] rsv[ii].body[jj]) matches
                                        BodyExpressionView::Fact(p) && p.key() == kk);
                            }
                        }
                    }
                }
            }
            i += 1;
        }
        proof {
            if !changed {
                assert forall|kk: (Seq<char>, nat)| reach_step(rsv, key_set(reached@)).contains(
                    kk,
                ) implies key_set(reached@).contains(kk) by {
                    let ii = choose|ii: int|
                        0 <= ii < rsv.len() && key_set(reached@).contains(
                            (#[trigger] rsv[ii]).head.key(),
                        ) && rule_body_keys(rsv[ii]).contains(kk);
                    assert(ks0.contains(rsv[ii].head.key()));
                    assert(rule_body_keys(rsv[ii]).subset_of(ks0));
                }
            }
        }
    }
    reached
}

/// The rules whose head key lies in the given key set, in store order.
#[verifier::loop_isolation(false)]
pub fn rules_for_keys(rules: &Vec<Rule>, keys: &Vec<(String, usize)>) -> (r: Vec<Rule>)
    ensures
        rule_views(r@) == rule_views(rules@).filter(
            |rv: RuleView| key_set(keys@).contains(rv.head.key()),
        ),
{
    let ghost rsv = rule_views(rules@);
    let ghost pred = |rv: RuleView| key_set(keys@).contains(rv.head.key());
    let mut out: Vec<Rule> = Vec::new();
    let n = rules.len();
    let mut i: usize = 0;
    while i < n
        invariant
            i <= n,
            rule_views(out@) == rsv.take(i as int).filter(pred),
        decreases n - i,
    {
        proof {
            assert(rsv[i as int] == rules@[i as int]@);
            assert(rsv.take(i + 1).drop_last() =~= rsv.take(i as int));
            assert(rsv.take(i + 1).last() == rsv[i as int]);
        }
        let keep = contains_key(keys, &rules[i].head.name, rules[i].head.vars.len());
        proof {
            assert(rsv[i as int].head.key() == (
                rules@[i as int].head.name@,
                rules@[i as int].head.vars@.len() as nat,
            ));
            assert(keep == pred(rsv[i as int]));
        }
        if keep {
            out.push(rules[i].clone());
            proof {
                reveal(Seq::filter);
                assert(rule_views(out@) =~= rule_views(out@.drop_last()).push(rsv[i as int]));
                assert(rule_views(out@) =~= rsv.take(i + 1).filter(pred));
            }
        } else {
            proof {
                reveal(Seq::filter);
                assert(rule_views(out@) =~= rsv.take(i + 1).filter(pred));
            }
        }
        i += 1;
    }
    proof {
        assert(rsv.take(n as int) =~= rsv);
    }
    out
}

/// The facts of a store copied into a fresh vector.
pub(crate) fn clone_facts(store: &Vec<Fact>) -> (r: Vec<Fact>)
    ensures
        fact_views(r@) == fact_views(store@),
{
    let n = store.len();
    let mut out: Vec<Fact> = Vec::new();
    let mut i: usize = 0;
    while i < n
        invariant
            n == store@.len(),
            i <= n,
            out@.len() == i as int,
            forall|j: int| 0 <= j < i ==> out@[j]@ == store@[j]@,
        decreases n - i,
    {
        out.push(store[i].clone());
        i += 1;
    }
    proof {
        assert(fact_views(out@) =~= fact_views(store@));
    }
    out
}

} // verus!
