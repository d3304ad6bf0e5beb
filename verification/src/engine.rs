use vstd::prelude::*;

use crate::ast::{Fact, FactView, Rule, RuleView};
use crate::binding::Binding;
use crate::fixpoint::{
    clone_facts, fact_views, insert_fact, is_reach_closure, is_saturation, key_set,
    lemma_filter_congruence, lemma_filter_no_duplicates, lemma_filter_subset,
    lemma_seq_filter_to_set, reachable_keys, rule_views, rules_for_keys, rules_restricted,
    saturate, store_wf,
};
use crate::unify::{lemma_ground_match_fact, match_fact, match_fact_spec};
use crate::EngineError;

verus! {

/// All facts and rule heads agree on one arity per relation name: the schema
/// invariant the stores enforce at insertion.
pub open spec fn keys_consistent(fs: Seq<FactView>, rs: Seq<RuleView>) -> bool {
    &&& forall|i: int, j: int|
        0 <= i < fs.len() && 0 <= j < fs.len() && (#[trigger] fs[i]).name == (
        #[trigger] fs[j]).name ==> fs[i].vars.len() == fs[j].vars.len()
    &&& forall|i: int, j: int|
        0 <= i < fs.len() && 0 <= j < rs.len() && (#[trigger] fs[i]).name == (
        #[trigger] rs[j]).head.name ==> fs[i].vars.len() == rs[j].head.vars.len()
    &&& forall|i: int, j: int|
        0 <= i < rs.len() && 0 <= j < rs.len() && (#[trigger] rs[i]).head.name == (
        #[trigger] rs[j]).head.name ==> rs[i].head.vars.len() == rs[j].head.vars.len()
}

/// The facts of a set that a query pattern matches under the empty binding.
pub open spec fn matching_set(s: Set<FactView>, q: FactView) -> Set<FactView> {
    s.filter(|f: FactView| match_fact_spec(q, f, Map::<Seq<char>, Seq<char>>::empty()) is Some)
}

/// RustEngine is a datalog engine that implements its internals via loops and
/// stuff in Rust: it owns the store of asserted ground facts and the store of
/// derivation rules, and answers pattern queries by deriving what the rules
/// imply and matching against it.
pub struct RustEngine {
    facts: Vec<Fact>,
    rules: Vec<Rule>,
}

impl RustEngine {
    /// The stored ground facts, in insertion order.
    pub closed spec fn facts_seq(&self) -> Seq<FactView> {
        fact_views(self.facts@)
    }

    /// The stored rules, in insertion order.
    pub closed spec fn rules_seq(&self) -> Seq<RuleView> {
        rule_views(self.rules@)
    }

    /// The stored ground facts as a set.
    pub open spec fn facts_set(&self) -> Set<FactView> {
        self.facts_seq().to_set()
    }

    /// The engine invariant: the fact store holds ground facts without
    /// duplicates, every stored rule is range restricted, rules are not
    /// duplicated, and one arity per relation name holds across both stores.
    pub open spec fn wf(&self) -> bool {
        &&& store_wf(self.facts_seq())
        &&& rules_restricted(self.rules_seq())
        &&& self.rules_seq().no_duplicates()
        &&& keys_consistent(self.facts_seq(), self.rules_seq())
    }

    /// Whether any stored fact or rule head carries this relation key; an
    /// unknown key denotes an empty relation, not an error.
    pub open spec fn known_key(&self, k: (Seq<char>, nat)) -> bool {
        (exists|i: int|
            0 <= i < self.facts_seq().len() && (#[trigger] self.facts_seq()[i]).key() == k)
            || (exists|i: int|
            0 <= i < self.rules_seq().len() && (#[trigger] self.rules_seq()[i]).head.key() == k)
    }

    /// What asserting a ground fact decides: an arity conflict with stored
    /// facts of the same name is `ArityMismatch`, then a conflict with a rule
    /// head of the same name is `NameClash`, otherwise the fact is accepted.
    pub open spec fn fact_decision(&self, f: FactView) -> Result<(), EngineError> {
        if exists|i: int|
            0 <= i < self.facts_seq().len() && (#[trigger] self.facts_seq()[i]).name == f.name
                && self.facts_seq()[i].vars.len() != f.vars.len() {
            Err(EngineError::ArityMismatch)
        } else if exists|i: int|
            0 <= i < self.rules_seq().len() && (#[trigger] self.rules_seq()[i]).head.name == f.name
                && self.rules_seq()[i].head.vars.len() != f.vars.len() {
            Err(EngineError::NameClash)
        } else {
            Ok(())
        }
    }

    /// What asserting a rule decides: a head variable missing from the body's
    /// fact patterns is `UnrestrictedHead`, then an arity conflict with a
    /// stored rule head of the same name is `ArityMismatch`, then a conflict
    /// with a stored fact of the same name is `NameClash`, otherwise the rule
    /// is accepted.
    pub open spec fn rule_decision(&self, r: RuleView) -> Result<(), EngineError> {
        if !r.is_range_restricted() {
            Err(EngineError::UnrestrictedHead)
        } else if exists|i: int|
            0 <= i < self.rules_seq().len() && (#[trigger] self.rules_seq()[i]).head.name
                == r.head.name && self.rules_seq()[i].head.vars.len() != r.head.vars.len() {
            Err(EngineError::ArityMismatch)
        } else if exists|i: int|
            0 <= i < self.facts_seq().len() && (#[trigger] self.facts_seq()[i]).name == r.head.name
                && self.facts_seq()[i].vars.len() != r.head.vars.len() {
            Err(EngineError::NameClash)
        } else {
            Ok(())
        }
    }

    /// The stored rules whose head key lies in the given key set, in store
    /// order: the rules a derivation restricted to those relations uses.
    pub open spec fn rules_for_closure(&self, ks: Set<(Seq<char>, nat)>) -> Seq<RuleView> {
        self.rules_seq().filter(|rv: RuleView| ks.contains(rv.head.key()))
    }

    /// An engine with empty stores.
    pub fn new() -> (e: RustEngine)
        ensures
            e.wf(),
            e.facts_seq() == Seq::<FactView>::empty(),
            e.rules_seq() == Seq::<RuleView>::empty(),
    {
        let e = RustEngine { facts: Vec::new(), rules: Vec::new() };
        proof {
            assert(e.facts_seq() =~= Seq::<FactView>::empty());
            assert(e.rules_seq() =~= Seq::<RuleView>::empty());
        }
        e
    }

    /// Whether a stored fact uses this name with a different arity.
    fn fact_arity_conflict(&self, name: &String, arity: usize) -> (r: bool)
        ensures
            r == exists|i: int|
                0 <= i < self.facts_seq().len() && (#[trigger] self.facts_seq()[i]).name == name@
                    && self.facts_seq()[i].vars.len() != arity,
    {
        let n = self.facts.len();
        let mut i: usize = 0;
        while i < n
            invariant
                n == self.facts@.len(),
                i <= n,
                forall|j: int|
                    0 <= j < i ==> !((#[trigger] self.facts_seq()[j]).name == name@
                        && self.facts_seq()[j].vars.len() != arity),
            decreases n - i,
        {
            proof {
                assert(self.facts_seq()[i as int] == self.facts@[i as int]@);
            }
            if self.facts[i].name == *name && !(self.facts[i].vars.len() == arity) {
                return true;
            }
            i += 1;
        }
        false
    }

    /// Whether a stored rule head uses this name with a different arity.
    fn rule_arity_conflict(&self, name: &String, arity: usize) -> (r: bool)
        ensures
            r == exists|i: int|
                0 <= i < self.rules_seq().len() && (#[trigger] self.rules_seq()[i]).head.name
                    == name@ && self.rules_seq()[i].head.vars.len() != arity,
    {
        let n = self.rules.len();
        let mut i: usize = 0;
        while i < n
            invariant
                n == self.rules@.len(),
                i <= n,
                forall|j: int|
                    0 <= j < i ==> !((#[trigger] self.rules_seq()[j]).head.name == name@
                        && self.rules_seq()[j].head.vars.len() != arity),
            decreases n - i,
        {
            proof {
                assert(self.rules_seq()[i as int] == self.rules@[i as int]@);
            }
            if self.rules[i].head.name == *name && !(self.rules[i].head.vars.len() == arity) {
                return true;
            }
            i += 1;
        }
        false
    }

    /// Whether a stored fact carries exactly this relation key.
    fn has_fact_key(&self, name: &String, arity: usize) -> (r: bool)
        ensures
            r == exists|i: int|
                0 <= i < self.facts_seq().len() && (#[trigger] self.facts_seq()[i]).key() == (
                name@,
                arity as nat,
            ),
    {
        let n = self.facts.len();
        let mut i: usize = 0;
        while i < n
            invariant
                n == self.facts@.len(),
                i <= n,
                forall|j: int|
                    0 <= j < i ==> (#[trigger] self.facts_seq()[j]).key() != (name@, arity as nat),
            decreases n - i,
        {
            proof {
                assert(self.facts_seq()[i as int] == self.facts@[i as int]@);
            }
            if self.facts[i].name == *name && self.facts[i].vars.len() == arity {
                proof {
                    assert(self.facts_seq()[i as int].key() == (name@, arity as nat));
                }
                return true;
            }
            i += 1;
        }
        false
    }

    /// Whether a stored rule head carries exactly this relation key.
    fn has_rule_key(&self, name: &String, arity: usize) -> (r: bool)
        ensures
            r == exists|i: int|
                0 <= i < self.rules_seq().len() && (#[trigger] self.rules_seq()[i]).head.key() == (
                name@,
                arity as nat,
            ),
    {
        let n = self.rules.len();
        let mut i: usize = 0;
        while i < n
            invariant
                n == self.rules@.len(),
                i <= n,
                forall|j: int|
                    0 <= j < i ==> (#[trigger] self.rules_seq()[j]).head.key() != (
                        name@,
                        arity as nat,
                    ),
            decreases n - i,
        {
            proof {
                assert(self.rules_seq()[i as int] == self.rules@[i as int]@);
            }
            if self.rules[i].head.name == *name && self.rules[i].head.vars.len() == arity {
                proof {
                    assert(self.rules_seq()[i as int].head.key() == (name@, arity as nat));
                }
                return true;
            }
            i += 1;
        }
        false
    }

    /// Asserts a ground fact: rejected on an arity conflict, deduplicated
    /// otherwise, so that asserting the same fact twice leaves the store
    /// unchanged.
    pub fn push_fact(&mut self, fact: Fact) -> (r: Result<(), EngineError>)
        requires
            old(self).wf(),
            fact@.is_ground(),
        ensures
            final(self).wf(),
            r == old(self).fact_decision(fact@),
            final(self).rules_seq() == old(self).rules_seq(),
            r is Ok ==> final(self).facts_set() == old(self).facts_set().insert(fact@),
            r is Ok && old(self).facts_set().contains(fact@) ==> final(self).facts_seq() == old(
                self,
            ).facts_seq(),
            r is Ok && !old(self).facts_set().contains(fact@) ==> final(self).facts_seq() == old(
                self,
            ).facts_seq().push(fact@),
            r is Err ==> *final(self) == *old(self),
    {
        if self.fact_arity_conflict(&fact.name, fact.vars.len()) {
            proof {
                assert(fact@.name == fact.name@);
                assert(fact@.vars.len() == fact.vars@.len());
            }
            return Err(EngineError::ArityMismatch);
        }
        if self.rule_arity_conflict(&fact.name, fact.vars.len()) {
            proof {
                assert(fact@.name == fact.name@);
                assert(fact@.vars.len() == fact.vars@.len());
            }
            return Err(EngineError::NameClash);
        }
        proof {
            assert(fact@.name == fact.name@);
            assert(fact@.vars.len() == fact.vars@.len());
        }
        let ghost oldf = self.facts_seq();
        let added = insert_fact(&mut self.facts, fact);
        proof {
            if added {
                assert forall|i: int, j: int|
                    0 <= i < self.facts_seq().len() && 0 <= j < self.facts_seq().len() && (
                    #[trigger] self.facts_seq()[i]).name == (
                    #[trigger] self.facts_seq()[j]).name implies self.facts_seq()[i].vars.len()
                    == self.facts_seq()[j].vars.len() by {
                    if i < oldf.len() && j < oldf.len() {
                        assert(oldf[i] == self.facts_seq()[i]);
                        assert(oldf[j] == self.facts_seq()[j]);
                    } else if i < oldf.len() {
                        assert(oldf[i] == self.facts_seq()[i]);
                    } else if j < oldf.len() {
                        assert(oldf[j] == self.facts_seq()[j]);
                    }
                }
                assert forall|i: int, j: int|
                    0 <= i < self.facts_seq().len() && 0 <= j < self.rules_seq().len() && (
                    #[trigger] self.facts_seq()[i]).name == (
                    #[trigger] self.rules_seq()[j]).head.name implies self.facts_seq()[
                    i].vars.len() == self.rules_seq()[j].head.vars.len() by {
                    if i < oldf.len() {
                        assert(oldf[i] == self.facts_seq()[i]);
                    }
                }
            }
        }
        Ok(())
    }

    /// Asserts a rule: rejected when its head is not range restricted or its
    /// head key conflicts with a stored rule head or fact; the same rule
    /// asserted twice is stored once.
    pub fn push_rule(&mut self, rule: Rule) -> (r: Result<(), EngineError>)
        requires
            old(self).wf(),
        ensures
            final(self).wf(),
            r == old(self).rule_decision(rule@),
            final(self).facts_seq() == old(self).facts_seq(),
            r is Ok ==> final(self).rules_seq().to_set() == old(self).rules_seq().to_set().insert(
                rule@,
            ),
            r is Ok && old(self).rules_seq().to_set().contains(rule@) ==> final(self).rules_seq()
                == old(self).rules_seq(),
            r is Ok && !old(self).rules_seq().to_set().contains(rule@) ==> final(self).rules_seq()
                == old(self).rules_seq().push(rule@),
            r is Err ==> *final(self) == *old(self),
    {
        let restricted = rule.is_range_restricted();
        if !restricted {
            return Err(EngineError::UnrestrictedHead);
        }
        if self.rule_arity_conflict(&rule.head.name, rule.head.vars.len()) {
            proof {
                assert(rule@.head.name == rule.head.name@);
                assert(rule@.head.vars.len() == rule.head.vars@.len());
            }
            return Err(EngineError::ArityMismatch);
        }
        if self.fact_arity_conflict(&rule.head.name, rule.head.vars.len()) {
            proof {
                assert(rule@.head.name == rule.head.name@);
                assert(rule@.head.vars.len() == rule.head.vars@.len());
            }
            return Err(EngineError::NameClash);
        }
        proof {
            assert(rule@.head.name == rule.head.name@);
            assert(rule@.head.vars.len() == rule.head.vars@.len());
        }
        let ghost oldr = self.rules_seq();
        let mut present = false;
        let n = self.rules.len();
        let mut i: usize = 0;
        while i < n
            invariant
                n == self.rules@.len(),
                i <= n,
                present ==> oldr.to_set().contains(rule@),
                !present ==> forall|j: int| 0 <= j < i ==> oldr[j] != rule@,
                oldr == self.rules_seq(),
                self == old(self),
            decreases n - i,
        {
            proof {
                assert(self.rules_seq()[i as int] == self.rules@[i as int]@);
            }
            if self.rules[i] == rule {
                present = true;
                proof {
                    assert(oldr[i as int] == rule@);
                    assert(oldr.contains(rule@));
                }
            }
            i += 1;
        }
        if present {
            proof {
                assert(self.rules_seq().to_set() =~= oldr.to_set().insert(rule@));
            }
            return Ok(());
        }
        proof {
            if oldr.to_set().contains(rule@) {
                let j = choose|j: int| 0 <= j < oldr.len() && oldr[j] == rule@;
            }
        }
        self.rules.push(rule);
        proof {
            let newr = self.rules_seq();
            assert(newr =~= oldr.push(newr.last()));
            assert(newr.last() == rule@);
            assert forall|x: RuleView| newr.to_set().contains(x) implies oldr.to_set().insert(
                rule@,
            ).contains(x) by {
                let j = choose|j: int| 0 <= j < newr.len() && newr[j] == x;
                if j < oldr.len() {
                    assert(oldr[j] == x);
                    assert(oldr.contains(x));
                }
            }
            assert forall|x: RuleView| oldr.to_set().insert(rule@).contains(x) implies
            newr.to_set().contains(x) by {
                if x == rule@ {
                    assert(newr[newr.len() - 1] == x);
                } else {
                    let j = choose|j: int| 0 <= j < oldr.len() && oldr[j] == x;
                    assert(newr[j] == x);
                }
            }
            assert(newr.to_set() =~= oldr.to_set().insert(rule@));
            assert forall|i2: int, j2: int|
                0 <= i2 < newr.len() && 0 <= j2 < newr.len() && i2 != j2 implies newr[i2]
                != newr[j2] by {
                if i2 < oldr.len() && j2 < oldr.len() {
                    assert(oldr[i2] != oldr[j2]);
                } else if i2 < oldr.len() {
                    if newr[i2] == newr[j2] {
                        assert(oldr[i2] == rule@);
                    }
                } else if j2 < oldr.len() {
                    if newr[i2] == newr[j2] {
                        assert(oldr[j2] == rule@);
                    }
                }
            }
            assert forall|i2: int|
                0 <= i2 < newr.len() implies (#[trigger] newr[i2]).is_range_restricted() by {
                if i2 < oldr.len() {
                    assert(oldr[i2] == newr[i2]);
                }
            }
            assert forall|i2: int, j2: int|
                0 <= i2 < self.facts_seq().len() && 0 <= j2 < newr.len() && (
                #[trigger] self.facts_seq()[i2]).name == (#[trigger] newr[j2]).head.name implies
            self.facts_seq()[i2].vars.len() == newr[j2].head.vars.len() by {
                if j2 < oldr.len() {
                    assert(oldr[j2] == newr[j2]);
                }
            }
            assert forall|i2: int, j2: int|
                0 <= i2 < newr.len() && 0 <= j2 < newr.len() && (#[trigger] newr[i2]).head.name == (
                #[trigger] newr[j2]).head.name implies newr[i2].head.vars.len()
                == newr[j2].head.vars.len() by {
                if i2 < oldr.len() && j2 < oldr.len() {
                    assert(oldr[i2] == newr[i2]);
                    assert(oldr[j2] == newr[j2]);
                } else if i2 < oldr.len() {
                    assert(oldr[i2] == newr[i2]);
                } else if j2 < oldr.len() {
                    assert(oldr[j2] == newr[j2]);
                }
            }
        }
        Ok(())
    }

    /// For when the query asks for an exact record: the stored facts equal to
    /// the query, in store order.
    #[verifier::loop_isolation(false)]
    pub fn filter_exact_match(&self, query: Fact) -> (v: Vec<Fact>)
        ensures
            fact_views(v@) == self.facts_seq().filter(|f: FactView| f == query@),
    {
        let ghost pred = |f: FactView| f == query@;
        let mut out: Vec<Fact> = Vec::new();
        let n = self.facts.len();
        let mut i: usize = 0;
        while i < n
            invariant
                i <= n,
                fact_views(out@) == self.facts_seq().take(i as int).filter(pred),
            decreases n - i,
        {
            proof {
                reveal(Seq::filter);
                assert(self.facts_seq()[i as int] == self.facts@[i as int]@);
                assert(self.facts_seq().take(i + 1).drop_last() =~= self.facts_seq().take(
                    i as int,
                ));
                assert(self.facts_seq().take(i + 1).last() == self.facts_seq()[i as int]);
            }
            if query == self.facts[i] {
                out.push(self.facts[i].clone());
                proof {
                    assert(fact_views(out@) =~= fact_views(out@.drop_last()).push(
                        self.facts_seq()[i as int],
                    ));
                    assert(fact_views(out@) =~= self.facts_seq().take(i + 1).filter(pred));
                }
            } else {
                proof {
                    assert(fact_views(out@) =~= self.facts_seq().take(i + 1).filter(pred));
                }
            }
            i += 1;
        }
        proof {
            assert(self.facts_seq().take(n as int) =~= self.facts_seq());
        }
        out
    }

    /// The stored facts of one relation schema, in store order.
    #[verifier::loop_isolation(false)]
    pub fn get_relation<'a>(&'a self, name: &String, column_count: usize) -> (v: Vec<&'a Fact>)
        ensures
            v@.map_values(|f: &Fact| f@) == self.facts_seq().filter(
                |f: FactView| f.name == name@ && f.vars.len() == column_count,
            ),
    {
        let ghost pred = |f: FactView| f.name == name@ && f.vars.len() == column_count;
        let mut out: Vec<&'a Fact> = Vec::new();
        let n = self.facts.len();
        let mut i: usize = 0;
        while i < n
            invariant
                i <= n,
                out@.map_values(|f: &Fact| f@) == self.facts_seq().take(i as int).filter(pred),
            decreases n - i,
        {
            proof {
                reveal(Seq::filter);
                assert(self.facts_seq()[i as int] == self.facts@[i as int]@);
                assert(self.facts_seq().take(i + 1).drop_last() =~= self.facts_seq().take(
                    i as int,
                ));
                assert(self.facts_seq().take(i + 1).last() == self.facts_seq()[i as int]);
            }
            if self.facts[i].name == *name && self.facts[i].vars.len() == column_count {
                out.push(&self.facts[i]);
                proof {
                    assert(out@.map_values(|f: &Fact| f@) =~= out@.drop_last().map_values(
                        |f: &Fact| f@,
                    ).push(self.facts_seq()[i as int]));
                    assert(out@.map_values(|f: &Fact| f@) =~= self.facts_seq().take(i + 1).filter(
                        pred,
                    ));
                }
            } else {
                proof {
                    assert(out@.map_values(|f: &Fact| f@) =~= self.facts_seq().take(i + 1).filter(
                        pred,
                    ));
                }
            }
            i += 1;
        }
        proof {
            assert(self.facts_seq().take(n as int) =~= self.facts_seq());
        }
        out
    }

    /// The stored rules whose head has this relation name and arity, in
    /// insertion order.
    #[verifier::loop_isolation(false)]
    pub fn rules_for(&self, name: &String, arity: usize) -> (v: Vec<Rule>)
        ensures
            rule_views(v@) == self.rules_seq().filter(
                |rv: RuleView| rv.head.key() == (name@, arity as nat),
            ),
    {
        let ghost pred = |rv: RuleView| rv.head.key() == (name@, arity as nat);
        let mut out: Vec<Rule> = Vec::new();
        let n = self.rules.len();
        let mut i: usize = 0;
        while i < n
            invariant
                i <= n,
                rule_views(out@) == self.rules_seq().take(i as int).filter(pred),
            decreases n - i,
        {
            proof {
                reveal(Seq::filter);
                assert(self.rules_seq()[i as int] == self.rules@[i as int]@);
                assert(self.rules_seq().take(i + 1).drop_last() =~= self.rules_seq().take(
                    i as int,
                ));
                assert(self.rules_seq().take(i + 1).last() == self.rules_seq()[i as int]);
                assert(self.rules_seq()[i as int].head.key() == (
                    self.rules@[i as int].head.name@,
                    self.rules@[i as int].head.vars@.len() as nat,
                ));
            }
            if self.rules[i].head.name == *name && self.rules[i].head.vars.len() == arity {
                out.push(self.rules[i].clone());
                proof {
                    assert(rule_views(out@) =~= rule_views(out@.drop_last()).push(
                        self.rules_seq()[i as int],
                    ));
                    assert(rule_views(out@) =~= self.rules_seq().take(i + 1).filter(pred));
                }
            } else {
                proof {
                    assert(rule_views(out@) =~= self.rules_seq().take(i + 1).filter(pred));
                }
            }
            i += 1;
        }
        proof {
            assert(self.rules_seq().take(n as int) =~= self.rules_seq());
        }
        out
    }

    /// The facts of a store that the query pattern matches under the empty
    /// binding, in store order.
    #[verifier::loop_isolation(false)]
    fn filter_matching(store: &Vec<Fact>, query: &Fact) -> (v: Vec<Fact>)
        ensures
            fact_views(v@) == fact_views(store@).filter(
                |f: FactView|
                    match_fact_spec(query@, f, Map::<Seq<char>, Seq<char>>::empty()) is Some,
            ),
    {
        let ghost pred = |f: FactView|
            match_fact_spec(query@, f, Map::<Seq<char>, Seq<char>>::empty()) is Some;
        let empty = Binding::new();
        let mut out: Vec<Fact> = Vec::new();
        let n = store.len();
        let mut i: usize = 0;
        while i < n
            invariant
                i <= n,
                empty.wf(),
                empty@ == Map::<Seq<char>, Seq<char>>::empty(),
                fact_views(out@) == fact_views(store@).take(i as int).filter(pred),
            decreases n - i,
        {
            proof {
                reveal(Seq::filter);
                assert(fact_views(store@)[i as int] == store@[i as int]@);
                assert(fact_views(store@).take(i + 1).drop_last() =~= fact_views(store@).take(
                    i as int,
                ));
                assert(fact_views(store@).take(i + 1).last() == fact_views(store@)[i as int]);
            }
            let matched = match match_fact(query, &store[i], &empty) {
                Some(_) => true,
                None => false,
            };
            if matched {
                out.push(store[i].clone());
                proof {
                    assert(fact_views(out@) =~= fact_views(out@.drop_last()).push(
                        fact_views(store@)[i as int],
                    ));
                    assert(fact_views(out@) =~= fact_views(store@).take(i + 1).filter(pred));
                }
            } else {
                proof {
                    assert(fact_views(out@) =~= fact_views(store@).take(i + 1).filter(pred));
                }
            }
            i += 1;
        }
        proof {
            assert(fact_views(store@).take(n as int) =~= fact_views(store@));
        }
        out
    }

    /// Pulls the stored records that the query pattern matches under the
    /// empty binding: constants must agree, and repeated free variables must
    /// take one consistent value.
    pub fn select(&self, query: Fact) -> (v: Vec<Fact>)
        ensures
            fact_views(v@) == self.facts_seq().filter(
                |f: FactView|
                    match_fact_spec(query@, f, Map::<Seq<char>, Seq<char>>::empty()) is Some,
            ),
    {
        Self::filter_matching(&self.facts, &query)
    }

    /// Answers a query through the rule store: brings a copy of the fact
    /// store to fixpoint over the rules reachable from the query's relation
    /// key, then keeps the facts the pattern matches.
    #[verifier::loop_isolation(false)]
    pub fn select_from_rule(&self, query: Fact) -> (r: Result<Vec<Fact>, EngineError>)
        requires
            self.wf(),
        ensures
            match r {
                Ok(v) => exists|ks: Set<(Seq<char>, nat)>, s: Set<FactView>|
                    {
                        &&& #[trigger] is_reach_closure(self.rules_seq(), query@.key(), ks)
                        &&& #[trigger] is_saturation(
                            self.facts_set(),
                            self.rules_for_closure(ks),
                            Ok(s),
                        )
                        &&& fact_views(v@).to_set() == matching_set(s, query@)
                        &&& fact_views(v@).no_duplicates()
                    },
                Err(e) => exists|ks: Set<(Seq<char>, nat)>|
                    {
                        &&& #[trigger] is_reach_closure(self.rules_seq(), query@.key(), ks)
                        &&& is_saturation(self.facts_set(), self.rules_for_closure(ks), Err(e))
                    },
            },
    {
        let keys = reachable_keys(&self.rules, &query.name, query.vars.len());
        proof {
            assert(query@.key() == (query.name@, query.vars@.len() as nat));
        }
        let rs = rules_for_keys(&self.rules, &keys);
        let ghost ksv = key_set(keys@);
        let ghost filtered = self.rules_for_closure(ksv);
        proof {
            assert(rule_views(rs@) == filtered);
            lemma_filter_subset(
                self.rules_seq(),
                |rv: RuleView| ksv.contains(rv.head.key()),
            );
            assert forall|i: int|
                0 <= i < rule_views(rs@).len() implies (
            #[trigger] rule_views(rs@)[i]).is_range_restricted() by {
                assert(filtered.contains(filtered[i]));
                assert(self.rules_seq().contains(filtered[i]));
                let j = choose|j: int|
                    0 <= j < self.rules_seq().len() && self.rules_seq()[j] == filtered[i];
            }
        }
        let base = clone_facts(&self.facts);
        match saturate(base, &rs) {
            Ok(sat) => {
                let v = Self::filter_matching(&sat, &query);
                proof {
                    let mpred = |f: FactView|
                        match_fact_spec(query@, f, Map::<Seq<char>, Seq<char>>::empty()) is Some;
                    lemma_seq_filter_to_set(fact_views(sat@), mpred);
                    lemma_filter_no_duplicates(fact_views(sat@), mpred);
                    assert(is_reach_closure(self.rules_seq(), query@.key(), ksv));
                    assert(is_saturation(self.facts_set(), filtered, Ok(fact_views(sat@).to_set())));
                    assert(fact_views(v@).to_set() == matching_set(fact_views(sat@).to_set(), query@));
                }
                Ok(v)
            },
            Err(e) => {
                proof {
                    assert(is_reach_closure(self.rules_seq(), query@.key(), ksv));
                    assert(is_saturation(self.facts_set(), filtered, Err(e)));
                }
                Err(e)
            },
        }
    }

    /// Resolves a query pattern: an unknown relation key gives the empty
    /// answer `None`; a relation defined by rules is first derived to
    /// fixpoint; then the pattern is matched against the relation's ground
    /// facts, exact containment when the pattern is fully bound.
    #[verifier::loop_isolation(false)]
    pub fn query(&self, query: Fact) -> (r: Result<Option<Vec<Fact>>, EngineError>)
        requires
            self.wf(),
        ensures
            !self.known_key(query@.key()) <==> r == Ok::<Option<Vec<Fact>>, EngineError>(None),
            match r {
                Ok(opt) => match opt {
                    None => !self.known_key(query@.key()),
                    Some(v) => self.known_key(query@.key()) && (exists|
                        ks: Set<(Seq<char>, nat)>,
                        s: Set<FactView>,
                    |
                        {
                            &&& #[trigger] is_reach_closure(self.rules_seq(), query@.key(), ks)
                            &&& #[trigger] is_saturation(
                                self.facts_set(),
                                self.rules_for_closure(ks),
                                Ok(s),
                            )
                            &&& fact_views(v@).to_set() == matching_set(s, query@)
                            &&& fact_views(v@).no_duplicates()
                        }),
                },
                Err(e) => exists|ks: Set<(Seq<char>, nat)>|
                    {
                        &&& #[trigger] is_reach_closure(self.rules_seq(), query@.key(), ks)
                        &&& is_saturation(self.facts_set(), self.rules_for_closure(ks), Err(e))
                    },
            },
    {
        proof {
            assert(query@.key() == (query.name@, query.vars@.len() as nat));
        }
        let has_rule = self.has_rule_key(&query.name, query.vars.len());
        if has_rule {
            match self.select_from_rule(query) {
                Ok(v) => Ok(Some(v)),
                Err(e) => Err(e),
            }
        } else {
            let has_fact = self.has_fact_key(&query.name, query.vars.len());
            if has_fact {
                let ghost k0 = query@.key();
                let ghost ks = Set::<(Seq<char>, nat)>::empty().insert(k0);
                let ghost kpred = |rv: RuleView| ks.contains(rv.head.key());
                let ghost mpred = |f: FactView|
                    match_fact_spec(query@, f, Map::<Seq<char>, Seq<char>>::empty()) is Some;
                proof {
                    assert forall|kk: (Seq<char>, nat)|
                        crate::fixpoint::reach_step(self.rules_seq(), ks).contains(kk) implies
                    ks.contains(kk) by {
                        let i = choose|i: int|
                            0 <= i < self.rules_seq().len() && ks.contains(
                                (#[trigger] self.rules_seq()[i]).head.key(),
                            ) && crate::fixpoint::rule_body_keys(self.rules_seq()[i]).contains(kk);
                        assert(self.rules_seq()[i].head.key() == k0);
                        assert(false);
                    }
                    assert(is_reach_closure(self.rules_seq(), k0, ks));
                    assert forall|i: int|
                        0 <= i < self.rules_seq().len() implies !kpred(
                        #[trigger] self.rules_seq()[i],
                    ) by {
                        if ks.contains(self.rules_seq()[i].head.key()) {
                            assert(self.rules_seq()[i].head.key() == k0);
                        }
                    }
                    Seq::lemma_all_neg_filter_empty(self.rules_seq(), kpred);
                    assert(self.rules_for_closure(ks) == Seq::<RuleView>::empty());
                    assert(crate::fixpoint::passes(
                        self.facts_set(),
                        Seq::<RuleView>::empty(),
                        0,
                    ) == Ok::<Set<FactView>, EngineError>(self.facts_set()));
                    assert(crate::fixpoint::pass_from(
                        self.facts_set(),
                        Seq::<RuleView>::empty(),
                        0,
                    ) == Ok::<Set<FactView>, EngineError>(self.facts_set()));
                    assert(is_saturation(
                        self.facts_set(),
                        self.rules_for_closure(ks),
                        Ok(self.facts_set()),
                    ));
                }
                let ground = query.is_ground();
                let v = if ground {
                    self.filter_exact_match(query)
                } else {
                    self.select(query)
                };
                proof {
                    if ground {
                        let epred = |f: FactView| f == query@;
                        assert forall|i: int|
                            0 <= i < self.facts_seq().len() implies epred(
                            #[trigger] self.facts_seq()[i],
                        ) == mpred(self.facts_seq()[i]) by {
                            lemma_ground_match_fact(query@, self.facts_seq()[i]);
                        }
                        lemma_filter_congruence(self.facts_seq(), epred, mpred);
                    }
                    lemma_seq_filter_to_set(self.facts_seq(), mpred);
                    lemma_filter_no_duplicates(self.facts_seq(), mpred);
                    assert(fact_views(v@).to_set() == matching_set(self.facts_set(), query@));
                }
                Ok(Some(v))
            } else {
                Ok(None)
            }
        }
    }
}

} // verus!
