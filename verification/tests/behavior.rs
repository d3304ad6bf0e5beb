use datalog::ast::Variable::{Fixed, Free};
use datalog::ast::{BodyExpression, EqualityConstraint, Fact, Rule, Statement, Variable};
use datalog::engine::RustEngine;
use datalog::eval;
use datalog::EngineError;

fn v(vs: Vec<&str>) -> Vec<Variable> {
    vs.iter()
        .map(|e| {
            if e.chars().next().unwrap().is_uppercase() {
                Free(e.to_string())
            } else {
                Fixed(e.to_string())
            }
        })
        .collect()
}

fn fact(name: &str, vars: Vec<&str>) -> Fact {
    Fact {
        name: name.to_string(),
        vars: v(vars),
    }
}

fn rule(head: Fact, facts: Vec<Fact>) -> Rule {
    Rule {
        head: head,
        body: facts.into_iter().map(|e| BodyExpression::Fact(e)).collect(),
    }
}

fn constraint(equals: bool, left: &str, right: &str) -> EqualityConstraint {
    let one = v(vec![left]).pop().unwrap();
    let two = v(vec![right]).pop().unwrap();
    EqualityConstraint {
        equals,
        left: one,
        right: two,
    }
}

#[test]
fn asserting_twice_keeps_one_copy() {
    let mut e = RustEngine::new();
    e.push_fact(fact("foo", vec!["bar"])).unwrap();
    e.push_fact(fact("foo", vec!["bar"])).unwrap();
    let r = e.query(fact("foo", vec!["X"])).unwrap().unwrap();
    assert_eq!(r.len(), 1);
    assert_eq!(r[0], fact("foo", vec!["bar"]));
}

#[test]
fn exact_match_returns_the_single_record() {
    let mut e = RustEngine::new();
    e.push_fact(fact("edge", vec!["a", "b"])).unwrap();
    e.push_fact(fact("edge", vec!["a", "c"])).unwrap();
    let r = e.query(fact("edge", vec!["a", "b"])).unwrap().unwrap();
    assert_eq!(r.len(), 1);
    assert_eq!(r[0], fact("edge", vec!["a", "b"]));
    let none = e.query(fact("edge", vec!["a", "z"])).unwrap().unwrap();
    assert_eq!(none.len(), 0);
}

#[test]
fn free_variable_selection_contents() {
    let mut e = RustEngine::new();
    e.push_fact(fact("edge", vec!["a", "b"])).unwrap();
    e.push_fact(fact("edge", vec!["a", "c"])).unwrap();
    e.push_fact(fact("edge", vec!["b", "d"])).unwrap();
    let r = e.query(fact("edge", vec!["a", "X"])).unwrap().unwrap();
    assert_eq!(r.len(), 2);
    assert!(r.contains(&fact("edge", vec!["a", "b"])));
    assert!(r.contains(&fact("edge", vec!["a", "c"])));
}

#[test]
fn repeated_free_variable_binds_consistently() {
    let mut e = RustEngine::new();
    e.push_fact(fact("edge", vec!["a", "a"])).unwrap();
    e.push_fact(fact("edge", vec!["a", "b"])).unwrap();
    let r = e.query(fact("edge", vec!["X", "X"])).unwrap().unwrap();
    assert_eq!(r.len(), 1);
    assert_eq!(r[0], fact("edge", vec!["a", "a"]));
}

#[test]
fn rule_projection_contents() {
    let mut e = RustEngine::new();
    e.push_fact(fact("foo", vec!["a"])).unwrap();
    e.push_fact(fact("foo", vec!["b"])).unwrap();
    e.push_fact(fact("foo", vec!["c"])).unwrap();
    e.push_rule(rule(fact("bar", vec!["X"]), vec![fact("foo", vec!["X"])]))
        .unwrap();
    let r = e.query(fact("bar", vec!["Q"])).unwrap().unwrap();
    assert_eq!(r.len(), 3);
    assert!(r.contains(&fact("bar", vec!["a"])));
    assert!(r.contains(&fact("bar", vec!["b"])));
    assert!(r.contains(&fact("bar", vec!["c"])));
}

#[test]
fn join_across_predicates() {
    let mut e = RustEngine::new();
    e.push_fact(fact("parent", vec!["a", "b"])).unwrap();
    e.push_fact(fact("parent", vec!["b", "c"])).unwrap();
    e.push_rule(rule(
        fact("grandparent", vec!["X", "Z"]),
        vec![fact("parent", vec!["X", "Y"]), fact("parent", vec!["Y", "Z"])],
    ))
    .unwrap();
    let r = e.query(fact("grandparent", vec!["Q", "R"])).unwrap().unwrap();
    assert_eq!(r.len(), 1);
    assert_eq!(r[0], fact("grandparent", vec!["a", "c"]));
}

#[test]
fn recursive_closure() {
    let mut e = RustEngine::new();
    e.push_fact(fact("edge", vec!["a", "b"])).unwrap();
    e.push_fact(fact("edge", vec!["b", "c"])).unwrap();
    e.push_fact(fact("edge", vec!["c", "d"])).unwrap();
    e.push_rule(rule(
        fact("path", vec!["X", "Y"]),
        vec![fact("edge", vec!["X", "Y"])],
    ))
    .unwrap();
    e.push_rule(rule(
        fact("path", vec!["X", "Z"]),
        vec![fact("path", vec!["X", "Y"]), fact("edge", vec!["Y", "Z"])],
    ))
    .unwrap();
    let r = e.query(fact("path", vec!["a", "Q"])).unwrap().unwrap();
    assert_eq!(r.len(), 3);
    assert!(r.contains(&fact("path", vec!["a", "b"])));
    assert!(r.contains(&fact("path", vec!["a", "c"])));
    assert!(r.contains(&fact("path", vec!["a", "d"])));
}

#[test]
fn unknown_relation_gives_empty_answer() {
    let e = RustEngine::new();
    let r = e.query(fact("nothing", vec!["X"])).unwrap();
    assert!(r.is_none());
}

#[test]
fn unknown_relation_not_confused_by_other_arity() {
    let mut e = RustEngine::new();
    e.push_fact(fact("edge", vec!["a", "b"])).unwrap();
    let r = e.query(fact("edge", vec!["X", "Y", "Z"])).unwrap();
    assert!(r.is_none());
}

#[test]
fn unrestricted_head_is_rejected() {
    let mut e = RustEngine::new();
    let r = e.push_rule(rule(fact("bad", vec!["X"]), vec![fact("foo", vec!["Y"])]));
    assert_eq!(r, Err(EngineError::UnrestrictedHead));
    // The rejected rule must not be visible: no rule, no facts, empty answer.
    assert!(e.query(fact("bad", vec!["Q"])).unwrap().is_none());
}

#[test]
fn fact_arity_conflict_is_rejected() {
    let mut e = RustEngine::new();
    e.push_fact(fact("edge", vec!["a", "b"])).unwrap();
    let r = e.push_fact(fact("edge", vec!["a"]));
    assert_eq!(r, Err(EngineError::ArityMismatch));
    let kept = e.query(fact("edge", vec!["X", "Y"])).unwrap().unwrap();
    assert_eq!(kept.len(), 1);
}

#[test]
fn rule_head_arity_conflict_is_rejected() {
    let mut e = RustEngine::new();
    e.push_rule(rule(fact("p", vec!["X"]), vec![fact("q", vec!["X"])]))
        .unwrap();
    let r = e.push_rule(rule(
        fact("p", vec!["X", "Y"]),
        vec![fact("q", vec!["X"]), fact("q", vec!["Y"])],
    ));
    assert_eq!(r, Err(EngineError::ArityMismatch));
}

#[test]
fn fact_clashing_with_rule_head_is_rejected() {
    let mut e = RustEngine::new();
    e.push_rule(rule(fact("p", vec!["X"]), vec![fact("q", vec!["X"])]))
        .unwrap();
    let r = e.push_fact(fact("p", vec!["a", "b"]));
    assert_eq!(r, Err(EngineError::NameClash));
}

#[test]
fn rule_clashing_with_fact_is_rejected() {
    let mut e = RustEngine::new();
    e.push_fact(fact("p", vec!["a", "b"])).unwrap();
    let r = e.push_rule(rule(fact("p", vec!["X"]), vec![fact("q", vec!["X"])]));
    assert_eq!(r, Err(EngineError::NameClash));
}

#[test]
fn same_arity_fact_and_rule_are_additive() {
    let mut e = RustEngine::new();
    e.push_fact(fact("bar", vec!["z"])).unwrap();
    e.push_fact(fact("foo", vec!["a"])).unwrap();
    e.push_rule(rule(fact("bar", vec!["X"]), vec![fact("foo", vec!["X"])]))
        .unwrap();
    let r = e.query(fact("bar", vec!["Q"])).unwrap().unwrap();
    assert_eq!(r.len(), 2);
    assert!(r.contains(&fact("bar", vec!["z"])));
    assert!(r.contains(&fact("bar", vec!["a"])));
}

#[test]
fn equality_constraint_filters_bindings() {
    let mut e = RustEngine::new();
    e.push_fact(fact("foo", vec!["a"])).unwrap();
    e.push_fact(fact("foo", vec!["b"])).unwrap();
    e.push_rule(Rule {
        head: fact("sel", vec!["X"]),
        body: vec![
            BodyExpression::Fact(fact("foo", vec!["X"])),
            BodyExpression::Equals(constraint(true, "X", "a")),
        ],
    })
    .unwrap();
    let r = e.query(fact("sel", vec!["Q"])).unwrap().unwrap();
    assert_eq!(r.len(), 1);
    assert_eq!(r[0], fact("sel", vec!["a"]));
}

#[test]
fn inequality_constraint_filters_bindings() {
    let mut e = RustEngine::new();
    e.push_fact(fact("foo", vec!["a"])).unwrap();
    e.push_fact(fact("foo", vec!["b"])).unwrap();
    e.push_rule(Rule {
        head: fact("sel", vec!["X"]),
        body: vec![
            BodyExpression::Fact(fact("foo", vec!["X"])),
            BodyExpression::Equals(constraint(false, "X", "a")),
        ],
    })
    .unwrap();
    let r = e.query(fact("sel", vec!["Q"])).unwrap().unwrap();
    assert_eq!(r.len(), 1);
    assert_eq!(r[0], fact("sel", vec!["b"]));
}

#[test]
fn unbound_variable_in_constraint_is_an_error() {
    let mut e = RustEngine::new();
    e.push_fact(fact("foo", vec!["a"])).unwrap();
    e.push_rule(Rule {
        head: fact("sel", vec!["X"]),
        body: vec![
            BodyExpression::Fact(fact("foo", vec!["X"])),
            BodyExpression::Equals(constraint(true, "X", "Y")),
        ],
    })
    .unwrap();
    let r = e.query(fact("sel", vec!["Q"]));
    assert_eq!(r, Err(EngineError::UnboundInConstraint));
}

#[test]
fn duplicate_rule_is_stored_once() {
    let mut e = RustEngine::new();
    e.push_fact(fact("foo", vec!["a"])).unwrap();
    e.push_rule(rule(fact("bar", vec!["X"]), vec![fact("foo", vec!["X"])]))
        .unwrap();
    e.push_rule(rule(fact("bar", vec!["X"]), vec![fact("foo", vec!["X"])]))
        .unwrap();
    let r = e.query(fact("bar", vec!["Q"])).unwrap().unwrap();
    assert_eq!(r.len(), 1);
    assert_eq!(r[0], fact("bar", vec!["a"]));
}

#[test]
fn select_ignores_other_relations() {
    let mut e = RustEngine::new();
    e.push_fact(fact("edge", vec!["a", "b"])).unwrap();
    e.push_fact(fact("node", vec!["a"])).unwrap();
    let r = e.select(fact("edge", vec!["X", "Y"]));
    assert_eq!(r.len(), 1);
    assert_eq!(r[0], fact("edge", vec!["a", "b"]));
}

#[test]
fn filter_exact_match_finds_equal_records_only() {
    let mut e = RustEngine::new();
    e.push_fact(fact("edge", vec!["a", "b"])).unwrap();
    e.push_fact(fact("edge", vec!["a", "c"])).unwrap();
    let r = e.filter_exact_match(fact("edge", vec!["a", "c"]));
    assert_eq!(r.len(), 1);
    assert_eq!(r[0], fact("edge", vec!["a", "c"]));
    let none = e.filter_exact_match(fact("edge", vec!["b", "b"]));
    assert!(none.is_empty());
}

#[test]
fn get_relation_selects_by_name_and_arity() {
    let mut e = RustEngine::new();
    e.push_fact(fact("edge", vec!["a", "b"])).unwrap();
    e.push_fact(fact("node", vec!["a"])).unwrap();
    e.push_fact(fact("edge", vec!["b", "c"])).unwrap();
    let name = "edge".to_string();
    let r = e.get_relation(&name, 2);
    assert_eq!(r.len(), 2);
    assert_eq!(*r[0], fact("edge", vec!["a", "b"]));
    assert_eq!(*r[1], fact("edge", vec!["b", "c"]));
}

#[test]
fn rules_for_selects_by_head_key() {
    let mut e = RustEngine::new();
    e.push_rule(rule(fact("bar", vec!["X"]), vec![fact("foo", vec!["X"])]))
        .unwrap();
    e.push_rule(rule(fact("baz", vec!["X"]), vec![fact("foo", vec!["X"])]))
        .unwrap();
    let name = "bar".to_string();
    let rs = e.rules_for(&name, 1);
    assert_eq!(rs.len(), 1);
    assert_eq!(
        rs[0],
        rule(fact("bar", vec!["X"]), vec![fact("foo", vec!["X"])])
    );
    assert!(e.rules_for(&name, 2).is_empty());
}

#[test]
fn select_from_rule_derives_and_matches() {
    let mut e = RustEngine::new();
    e.push_fact(fact("foo", vec!["a"])).unwrap();
    e.push_fact(fact("foo", vec!["b"])).unwrap();
    e.push_rule(rule(fact("bar", vec!["X"]), vec![fact("foo", vec!["X"])]))
        .unwrap();
    let r = e.select_from_rule(fact("bar", vec!["b"])).unwrap();
    assert_eq!(r.len(), 1);
    assert_eq!(r[0], fact("bar", vec!["b"]));
}

#[test]
fn mutually_recursive_rules_settle() {
    let mut e = RustEngine::new();
    e.push_fact(fact("up", vec!["a", "b"])).unwrap();
    e.push_fact(fact("down", vec!["b", "c"])).unwrap();
    e.push_rule(rule(
        fact("even", vec!["X", "Y"]),
        vec![fact("up", vec!["X", "Y"])],
    ))
    .unwrap();
    e.push_rule(rule(
        fact("even", vec!["X", "Z"]),
        vec![fact("odd", vec!["X", "Y"]), fact("up", vec!["Y", "Z"])],
    ))
    .unwrap();
    e.push_rule(rule(
        fact("odd", vec!["X", "Z"]),
        vec![fact("even", vec!["X", "Y"]), fact("down", vec!["Y", "Z"])],
    ))
    .unwrap();
    let r = e.query(fact("odd", vec!["a", "Q"])).unwrap().unwrap();
    assert_eq!(r.len(), 1);
    assert_eq!(r[0], fact("odd", vec!["a", "c"]));
}

#[test]
fn zero_arity_facts_work() {
    let mut e = RustEngine::new();
    e.push_fact(fact("flag", vec![])).unwrap();
    let r = e.query(fact("flag", vec![])).unwrap().unwrap();
    assert_eq!(r.len(), 1);
    assert_eq!(r[0], fact("flag", vec![]));
}

#[test]
fn known_relation_with_no_matches_gives_empty_list() {
    let mut e = RustEngine::new();
    e.push_fact(fact("edge", vec!["a", "b"])).unwrap();
    let r = e.query(fact("edge", vec!["z", "X"])).unwrap().unwrap();
    assert!(r.is_empty());
}

#[test]
fn rule_over_empty_relation_derives_nothing() {
    let mut e = RustEngine::new();
    e.push_rule(rule(fact("bar", vec!["X"]), vec![fact("foo", vec!["X"])]))
        .unwrap();
    let r = e.query(fact("bar", vec!["Q"])).unwrap().unwrap();
    assert!(r.is_empty());
}

#[test]
fn eval_passes_input_through() {
    let line = "edge(a, b).".to_string();
    assert_eq!(eval(line.clone()), line);
    assert_eq!(eval(7_u64), 7_u64);
}

#[test]
fn ast_values_compare_by_content() {
    assert_eq!(Fixed("a".to_string()), Fixed("a".to_string()));
    assert_ne!(Fixed("a".to_string()), Free("a".to_string()));
    assert_ne!(Fixed("a".to_string()), Fixed("b".to_string()));
    assert_eq!(fact("foo", vec!["a", "X"]), fact("foo", vec!["a", "X"]));
    assert_ne!(fact("foo", vec!["a"]), fact("foo", vec!["a", "X"]));
    assert_ne!(fact("foo", vec!["a"]), fact("bar", vec!["a"]));
    let r1 = rule(fact("bar", vec!["X"]), vec![fact("foo", vec!["X"])]);
    let r2 = rule(fact("bar", vec!["X"]), vec![fact("foo", vec!["X"])]);
    assert_eq!(r1, r2);
    assert_eq!(Statement::Rule(r1.clone()), Statement::Rule(r2));
    assert_ne!(
        Statement::Fact(fact("foo", vec!["a"])),
        Statement::Query(fact("foo", vec!["a"]))
    );
}

#[test]
fn ground_fact_recognition() {
    assert!(fact("foo", vec!["a", "b"]).is_ground());
    assert!(!fact("foo", vec!["a", "X"]).is_ground());
}

#[test]
fn rule_range_restriction_check() {
    let ok = rule(
        fact("bar", vec!["X", "a"]),
        vec![fact("foo", vec!["X", "Y"])],
    );
    assert!(ok.is_range_restricted());
    let bad = rule(fact("bar", vec!["X"]), vec![fact("foo", vec!["Y"])]);
    assert!(!bad.is_range_restricted());
    let constrained = Rule {
        head: fact("bar", vec!["X"]),
        body: vec![BodyExpression::Equals(constraint(true, "X", "a"))],
    };
    assert!(!constrained.is_range_restricted());
}

#[test]
fn constants_in_rules_reach_the_store() {
    // The rule's head carries a constant of its own.
    let mut e = RustEngine::new();
    e.push_fact(fact("foo", vec!["a"])).unwrap();
    e.push_rule(Rule {
        head: fact("tagged", vec!["k", "X"]),
        body: vec![BodyExpression::Fact(fact("foo", vec!["X"]))],
    })
    .unwrap();
    let r = e.query(fact("tagged", vec!["Q", "R"])).unwrap().unwrap();
    assert_eq!(r.len(), 1);
    assert_eq!(r[0], fact("tagged", vec!["k", "a"]));
}

#[test]
fn derivation_does_not_mutate_the_engine() {
    let mut e = RustEngine::new();
    e.push_fact(fact("edge", vec!["a", "b"])).unwrap();
    e.push_rule(rule(
        fact("path", vec!["X", "Y"]),
        vec![fact("edge", vec!["X", "Y"])],
    ))
    .unwrap();
    let first = e.query(fact("path", vec!["Q", "R"])).unwrap().unwrap();
    let second = e.query(fact("path", vec!["Q", "R"])).unwrap().unwrap();
    assert_eq!(first, second);
    assert_eq!(first.len(), 1);
    // The stored extensional relation is still just the asserted fact.
    let stored = e.select(fact("edge", vec!["X", "Y"]));
    assert_eq!(stored.len(), 1);
}
