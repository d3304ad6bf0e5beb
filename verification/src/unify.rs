use vstd::prelude::*;

use crate::ast::{Fact, FactView, Variable, VariableView, EqualityConstraint, EqualityConstraintView};
use crate::binding::Binding;
use crate::EngineError;

verus! {

/// What a term stands for under a binding: a constant resolves to itself, a
/// free variable to its bound constant, if any.
pub open spec fn resolve_term(b: Map<Seq<char>, Seq<char>>, t: VariableView) -> Option<Seq<char>> {
    match t {
        VariableView::Fixed(k) => Some(k),
        VariableView::Free(x) => if b.contains_key(x) {
            Some(b[x])
        } else {
            None
        },
    }
}

/// Matching the pattern terms `p` against the candidate terms `c` from
/// position `i` on, starting from the binding `b`: a constant in the pattern
/// must equal the candidate's term, a bound variable must agree with the
/// candidate's constant, and an unbound variable is bound to it.
pub open spec fn match_terms_from(
    p: Seq<VariableView>,
    c: Seq<VariableView>,
    b: Map<Seq<char>, Seq<char>>,
    i: int,
) -> Option<Map<Seq<char>, Seq<char>>>
    recommends
        p.len() == c.len(),
        0 <= i <= p.len(),
    decreases p.len() - i,
{
    if i < 0 || i >= p.len() {
        Some(b)
    } else {
        match p[i] {
            VariableView::Fixed(k) => if c[i] == VariableView::Fixed(k) {
                match_terms_from(p, c, b, i + 1)
            } else {
                None
            },
            VariableView::Free(x) => if b.contains_key(x) {
                if b[x] == c[i].sym() {
                    match_terms_from(p, c, b, i + 1)
                } else {
                    None
                }
            } else {
                match_terms_from(p, c, b.insert(x, c[i].sym()), i + 1)
            },
        }
    }
}

/// The single matching primitive of the engine: `None` if the relation names
/// or arities differ or some position conflicts, otherwise the input binding
/// extended with the constants the pattern's free variables took.
pub open spec fn match_fact_spec(p: FactView, cand: FactView, b: Map<Seq<char>, Seq<char>>) -> Option<
    Map<Seq<char>, Seq<char>>,
> {
    if p.name == cand.name && p.vars.len() == cand.vars.len() {
        match_terms_from(p.vars, cand.vars, b, 0)
    } else {
        None
    }
}

/// Resolving both sides of a constraint and testing them: equal when `equals`
/// asks for equality, different otherwise; an unbound side is the
/// `UnboundInConstraint` configuration error.
pub open spec fn eval_constraint_spec(c: EqualityConstraintView, b: Map<Seq<char>, Seq<char>>) -> Result<
    bool,
    EngineError,
> {
    match (resolve_term(b, c.left), resolve_term(b, c.right)) {
        (Some(l), Some(r)) => Ok(if c.equals {
            l == r
        } else {
            l != r
        }),
        _ => Err(EngineError::UnboundInConstraint),
    }
}

/// A head term under a full binding: constants stay, variables are replaced
/// by their bound constants.
pub open spec fn subst_term(t: VariableView, b: Map<Seq<char>, Seq<char>>) -> VariableView
    recommends
        t is Free ==> b.contains_key(t.sym()),
{
    match t {
        VariableView::Fixed(k) => VariableView::Fixed(k),
        VariableView::Free(x) => VariableView::Fixed(b[x]),
    }
}

/// A rule head under a full binding: the ground fact the rule derives.
pub open spec fn subst_fact_spec(h: FactView, b: Map<Seq<char>, Seq<char>>) -> FactView {
    FactView { name: h.name, vars: h.vars.map_values(|t: VariableView| subst_term(t, b)) }
}

/// A successful match only extends the binding: old entries are kept, every
/// free variable of the pattern positions seen ends up bound, and every new
/// constant comes from the candidate's terms.
pub proof fn lemma_match_terms_from_props(
    p: Seq<VariableView>,
    c: Seq<VariableView>,
    b: Map<Seq<char>, Seq<char>>,
    i: int,
)
    requires
        p.len() == c.len(),
        0 <= i <= p.len(),
    ensures
        match_terms_from(p, c, b, i) matches Some(b2) ==> (forall|x: Seq<char>| #[trigger]
            b.contains_key(x) ==> b2.contains_key(x) && b2[x] == b[x]),
        match_terms_from(p, c, b, i) matches Some(b2) ==> (forall|j: int|
            i <= j < p.len() && (#[trigger] p[j]) is Free ==> b2.contains_key(p[j].sym())),
        match_terms_from(p, c, b, i) matches Some(b2) ==> (forall|x: Seq<char>| #[trigger]
            b2.contains_key(x) ==> (b.contains_key(x) && b2[x] == b[x]) || (exists|j: int|
                0 <= j < c.len() && (#[trigger] c[j]).sym() == b2[x])),
    decreases p.len() - i,
{
    if 0 <= i < p.len() {
        match p[i] {
            VariableView::Fixed(k) => {
                if c[i] == VariableView::Fixed(k) {
                    assert(match_terms_from(p, c, b, i) == match_terms_from(p, c, b, i + 1));
                    lemma_match_terms_from_props(p, c, b, i + 1);
                    if match_terms_from(p, c, b, i) is Some {
                        let b2 = match_terms_from(p, c, b, i)->Some_0;
                        assert forall|j: int|
                            i <= j < p.len() && (#[trigger] p[j]) is Free implies b2.contains_key(
                            p[j].sym(),
                        ) by {
                            assert(j != i);
                            assert(i + 1 <= j < p.len() && p[j] is Free);
                        }
                    }
                }
            },
            VariableView::Free(x) => {
                if b.contains_key(x) {
                    if b[x] == c[i].sym() {
                        assert(match_terms_from(p, c, b, i) == match_terms_from(p, c, b, i + 1));
                        lemma_match_terms_from_props(p, c, b, i + 1);
                        if match_terms_from(p, c, b, i) is Some {
                            let b2 = match_terms_from(p, c, b, i)->Some_0;
                            assert(p[i].sym() == x);
                            assert(b2.contains_key(x));
                            assert forall|j: int|
                                i <= j < p.len() && (#[trigger] p[j]) is Free implies
                            b2.contains_key(p[j].sym()) by {
                                if j != i {
                                    assert(i + 1 <= j < p.len() && p[j] is Free);
                                }
                            }
                        }
                    }
                } else {
                    let b1 = b.insert(x, c[i].sym());
                    assert(match_terms_from(p, c, b, i) == match_terms_from(p, c, b1, i + 1));
                    lemma_match_terms_from_props(p, c, b1, i + 1);
                    if match_terms_from(p, c, b, i) is Some {
                        let b2 = match_terms_from(p, c, b, i)->Some_0;
                        assert(p[i].sym() == x);
                        assert(b1.contains_key(x));
                        assert(b2.contains_key(x));
                        assert forall|j: int|
                            i <= j < p.len() && (#[trigger] p[j]) is Free implies b2.contains_key(
                            p[j].sym(),
                        ) by {
                            if j != i {
                                assert(i + 1 <= j < p.len() && p[j] is Free);
                            }
                        }
                        assert forall|y: Seq<char>| #[trigger] b.contains_key(y) implies
                        b2.contains_key(y) && b2[y] == b[y] by {
                            assert(y != x);
                            assert(b1.contains_key(y) && b1[y] == b[y]);
                        }
                        assert forall|y: Seq<char>| #[trigger] b2.contains_key(y) implies (
                        b.contains_key(y) && b2[y] == b[y]) || (exists|j: int|
                            0 <= j < c.len() && (#[trigger] c[j]).sym() == b2[y]) by {
                            if b1.contains_key(y) && b2[y] == b1[y] {
                                if y == x {
                                    assert(c[i].sym() == b2[y]);
                                }
                            }
                        }
                    }
                }
            },
        }
    }
}

/// The fact-level reading of the lemma above: a successful match keeps the
/// old entries, binds every free variable of the pattern, and takes every new
/// constant from the candidate's terms.
pub proof fn lemma_match_fact_props(p: FactView, c: FactView, b: Map<Seq<char>, Seq<char>>)
    ensures
        match_fact_spec(p, c, b) matches Some(b2) ==> (forall|x: Seq<char>| #[trigger]
            b.contains_key(x) ==> b2.contains_key(x) && b2[x] == b[x]),
        match_fact_spec(p, c, b) matches Some(b2) ==> (forall|x: Seq<char>|
            p.free_vars().contains(x) ==> b2.contains_key(x)),
        match_fact_spec(p, c, b) matches Some(b2) ==> (forall|x: Seq<char>| #[trigger]
            b2.contains_key(x) ==> (b.contains_key(x) && b2[x] == b[x]) || c.syms().contains(
                b2[x],
            )),
{
    if p.name == c.name && p.vars.len() == c.vars.len() {
        lemma_match_terms_from_props(p.vars, c.vars, b, 0);
        if match_fact_spec(p, c, b) is Some {
            let b2 = match_fact_spec(p, c, b)->Some_0;
            assert forall|x: Seq<char>| p.free_vars().contains(x) implies b2.contains_key(x) by {
                let j = choose|j: int|
                    0 <= j < p.vars.len() && p.vars[j] == VariableView::Free(x);
                assert(p.vars[j] is Free && p.vars[j].sym() == x);
            }
            assert forall|x: Seq<char>| #[trigger] b2.contains_key(x) implies (b.contains_key(x)
                && b2[x] == b[x]) || c.syms().contains(b2[x]) by {
                if !(b.contains_key(x) && b2[x] == b[x]) {
                    let j = choose|j: int|
                        0 <= j < c.vars.len() && (#[trigger] c.vars[j]).sym() == b2[x];
                    assert(c.syms().contains(b2[x]));
                }
            }
        }
    }
}

/// A fully constant pattern adds no bindings and matches exactly the
/// candidates whose terms equal its own.
proof fn lemma_ground_match_terms(
    p: Seq<VariableView>,
    c: Seq<VariableView>,
    b: Map<Seq<char>, Seq<char>>,
    i: int,
)
    requires
        p.len() == c.len(),
        0 <= i <= p.len(),
        forall|j: int| i <= j < p.len() ==> (#[trigger] p[j]) is Fixed,
    ensures
        match_terms_from(p, c, b, i) == (if forall|j: int| i <= j < p.len() ==> p[j] == c[j] {
            Some(b)
        } else {
            None::<Map<Seq<char>, Seq<char>>>
        }),
    decreases p.len() - i,
{
    if i < p.len() {
        match p[i] {
            VariableView::Fixed(k) => {
                if c[i] == VariableView::Fixed(k) {
                    lemma_ground_match_terms(p, c, b, i + 1);
                }
            },
            VariableView::Free(_) => {
                assert(p[i] is Fixed);
            },
        }
    }
}

/// The exact-match reading of the primitive: against the empty binding, a
/// ground pattern matches a candidate exactly when the two facts are equal.
pub proof fn lemma_ground_match_fact(p: FactView, c: FactView)
    requires
        p.is_ground(),
    ensures
        (match_fact_spec(p, c, Map::<Seq<char>, Seq<char>>::empty()) is Some) <==> p == c,
{
    if p.name == c.name && p.vars.len() == c.vars.len() {
        lemma_ground_match_terms(p.vars, c.vars, Map::empty(), 0);
        if forall|j: int| 0 <= j < p.vars.len() ==> p.vars[j] == c.vars[j] {
            assert(p.vars =~= c.vars);
            assert(p == FactView { name: p.name, vars: p.vars });
            assert(p == c);
        } else {
            assert(p != c);
        }
    } else {
        assert(p != c);
    }
}

/// Computes the binding produced by matching one fact pattern against one
/// candidate fact, extending `binding_in`; `None` means no match.
pub fn match_fact(pattern: &Fact, candidate: &Fact, binding_in: &Binding) -> (r: Option<Binding>)
    requires
        binding_in.wf(),
    ensures
        match r {
            Some(b2) => {
                &&& b2.wf()
                &&& match_fact_spec(pattern@, candidate@, binding_in@) == Some(b2@)
                &&& forall|x: Seq<char>| #[trigger]
                    binding_in@.contains_key(x) ==> b2@.contains_key(x) && b2@[x]
                        == binding_in@[x]
                &&& forall|x: Seq<char>|
                    pattern@.free_vars().contains(x) ==> b2@.contains_key(x)
                &&& forall|x: Seq<char>| #[trigger]
                    b2@.contains_key(x) ==> (binding_in@.contains_key(x) && b2@[x]
                        == binding_in@[x]) || candidate@.syms().contains(b2@[x])
            },
            None => match_fact_spec(pattern@, candidate@, binding_in@) is None,
        },
{
    if !(pattern.name == candidate.name) {
        return None;
    }
    let n = pattern.vars.len();
    if !(n == candidate.vars.len()) {
        proof {
            assert(pattern@.vars.len() == pattern.vars@.len());
            assert(candidate@.vars.len() == candidate.vars@.len());
        }
        return None;
    }
    let mut cur = binding_in.duplicate();
    let mut i: usize = 0;
    while i < n
        invariant
            n == pattern.vars.len(),
            n == candidate.vars.len(),
            i <= n,
            cur.wf(),
            match_terms_from(pattern@.vars, candidate@.vars, binding_in@, 0) == match_terms_from(
                pattern@.vars,
                candidate@.vars,
                cur@,
                i as int,
            ),
        decreases n - i,
    {
        proof {
            assert(pattern@.vars[i as int] == pattern.vars@[i as int]@);
            assert(candidate@.vars[i as int] == candidate.vars@[i as int]@);
        }
        match &pattern.vars[i] {
            Variable::Fixed(_) => {
                if !(pattern.vars[i] == candidate.vars[i]) {
                    return None;
                }
            },
            Variable::Free(x) => {
                let cand_sym = candidate.vars[i].sym_ref();
                match cur.get(x) {
                    Some(v) => {
                        if !(*v == *cand_sym) {
                            return None;
                        }
                    },
                    None => {
                        cur.insert(x, cand_sym);
                    },
                }
            },
        }
        i += 1;
    }
    proof {
        assert(pattern@.name == pattern.name@);
        assert(candidate@.name == candidate.name@);
        assert(match_fact_spec(pattern@, candidate@, binding_in@) == Some(cur@));
        lemma_match_fact_props(pattern@, candidate@, binding_in@);
        assert forall|x: Seq<char>| #[trigger] binding_in@.contains_key(x) implies cur@.contains_key(
            x,
        ) && cur@[x] == binding_in@[x] by {}
        assert forall|x: Seq<char>| pattern@.free_vars().contains(x) implies cur@.contains_key(
            x,
        ) by {}
        assert forall|x: Seq<char>| #[trigger] cur@.contains_key(x) implies (
        binding_in@.contains_key(x) && cur@[x] == binding_in@[x]) || candidate@.syms().contains(
            cur@[x],
        ) by {
            let m = match_fact_spec(pattern@, candidate@, binding_in@)->Some_0;
            assert(m == cur@);
            assert(m.contains_key(x));
        }
    }
    Some(cur)
}

/// Resolves one term through a binding, if possible.
pub fn resolve<'a>(b: &'a Binding, t: &'a Variable) -> (r: Option<&'a String>)
    requires
        b.wf(),
    ensures
        match r {
            Some(v) => resolve_term(b@, t@) == Some(v@),
            None => resolve_term(b@, t@) is None,
        },
{
    match t {
        Variable::Fixed(k) => Some(k),
        Variable::Free(x) => b.get(x),
    }
}

/// Evaluates an equality or inequality constraint under a binding; a still
/// unbound variable on either side is reported as `UnboundInConstraint`.
pub fn evaluate_constraint(c: &EqualityConstraint, b: &Binding) -> (r: Result<bool, EngineError>)
    requires
        b.wf(),
    ensures
        r == eval_constraint_spec(c@, b@),
{
    let l = match resolve(b, &c.left) {
        Some(v) => v,
        None => {
            return Err(EngineError::UnboundInConstraint);
        },
    };
    let r = match resolve(b, &c.right) {
        Some(v) => v,
        None => {
            return Err(EngineError::UnboundInConstraint);
        },
    };
    let eq = *l == *r;
    if c.equals {
        Ok(eq)
    } else {
        Ok(!eq)
    }
}

/// Builds the ground fact a rule head derives under a binding that covers all
/// of the head's free variables.
pub fn substitute(head: &Fact, b: &Binding) -> (r: Fact)
    requires
        b.wf(),
        forall|x: Seq<char>| head@.free_vars().contains(x) ==> b@.contains_key(x),
    ensures
        r@ == subst_fact_spec(head@, b@),
        r@.is_ground(),
{
    let n = head.vars.len();
    let mut vars: Vec<Variable> = Vec::new();
    let mut i: usize = 0;
    while i < n
        invariant
            n == head.vars.len(),
            i <= n,
            b.wf(),
            forall|x: Seq<char>| head@.free_vars().contains(x) ==> b@.contains_key(x),
            vars@.len() == i as int,
            forall|j: int| 0 <= j < i ==> vars@[j]@ == subst_term(head@.vars[j], b@),
            forall|j: int| 0 <= j < i ==> vars@[j]@ is Fixed,
        decreases n - i,
    {
        proof {
            assert(head@.vars[i as int] == head.vars@[i as int]@);
        }
        match &head.vars[i] {
            Variable::Fixed(k) => {
                vars.push(Variable::Fixed(k.clone()));
            },
            Variable::Free(x) => {
                proof {
                    assert(head@.vars[i as int] == VariableView::Free(x@));
                    assert(head@.free_vars().contains(x@));
                }
                match b.get(x) {
                    Some(v) => {
                        vars.push(Variable::Fixed(v.clone()));
                    },
                    None => {
                        proof {
                            assert(false);
                        }
                        vars.push(Variable::Free(x.clone()));
                    },
                }
            },
        }
        i += 1;
    }
    let r = Fact { name: head.name.clone(), vars };
    proof {
        assert(r@.vars =~= head@.vars.map_values(|t: VariableView| subst_term(t, b@)));
    }
    r
}

} // verus!
