use datalog::ast::{BodyExpression, Fact, Rule, Variable};
use datalog::ast::Variable::{Fixed, Free};
use datalog::engine::RustEngine;

fn v(vs: Vec<&str>) -> Vec<Variable> {
    vs.iter()
        .map(|e| {
            if e.chars().next().unwrap().is_uppercase() {
                Free(e.to_string())
            } else {
                Fixed(e.to_string())
            }
        })
        .collect()
}

fn rule(head: Fact, facts: Vec<Fact>) -> Rule {
    Rule {
        head: head,
        body: facts.into_iter().map(|e| BodyExpression::Fact(e)).collect(),
    }
}

fn fact(name: &str, vars: Vec<&str>) -> Fact {
    Fact {
        name: name.to_string(),
        vars: v(vars),
    }
}

fn query(name: &str, vars: Vec<&str>) -> Fact {
    Fact {
        name: name.to_string(),
        vars: v(vars),
    }
}

#[test]
fn single_check() {
    /*
    check if a single fact gets stored
    > foo(bar).
    > foo(bar)?
    foo(bar).
    */
    let mut e = RustEngine::new();

    e.push_fact(fact("foo", vec!["bar"])).unwrap();
    let q = query("foo", vec!["bar"]);

    let r = e.query(q).unwrap().unwrap();
    assert_eq!(r.len(), 1);
}

#[test]
fn query_with_free_var() {
    /*
    query for a subset of the facts in a database
    > edge(a, b).
    > edge(a, c).
    > edge(b, d).
    > edge(a, X)?
    edge(a, b).
    edge(a, c).
    */
    let mut e = RustEngine::new();
    e.push_fact(fact("edge", vec!["a", "b"])).unwrap();
    e.push_fact(fact("edge", vec!["a", "c"])).unwrap();
    e.push_fact(fact("edge", vec!["b", "d"])).unwrap();

    let q = query("edge", vec!["a", "X"]);

    let r = e.query(q).unwrap().unwrap();
    assert_eq!(r.len(), 2);
}

#[test]
fn query_with_free_var_2() {
    /*
    same as above but just changing things around to see if it still works
    > edge(a, b).
    > edge(a, c).
    > edge(b, d).
    > edge(c, d).
    > edge(j, d).
    > edge(X, d)?
    edge(b, d).
    edge(c, d).
    edge(j, d).
    */
    let mut e = RustEngine::new();

    e.push_fact(fact("edge", vec!["a", "b"])).unwrap();
    e.push_fact(fact("edge", vec!["a", "c"])).unwrap();
    e.push_fact(fact("edge", vec!["b", "d"])).unwrap();
    e.push_fact(fact("edge", vec!["c", "d"])).unwrap();
    e.push_fact(fact("edge", vec!["j", "d"])).unwrap();

    let q = query("edge", vec!["X", "d"]);

    let r = e.query(q).unwrap().unwrap();
    assert_eq!(r.len(), 3);
}

#[test]
fn test_rule_projects_new_relation() {
    /*
    A simple rule can project relations backed by concrete facts into a new relation of inferred facts
    > % first add some facts
    > foo(a).
    > foo(b).
    > foo(c).
    > % make a rule to project all 'foo' into a 'bar' relation
    > bar(X) :- foo(X).
    > % query for all bar
    > bar(Q)?
    bar(a).
    bar(b).
    bar(c).
    */

    let mut e = RustEngine::new();
    e.push_fact(fact("foo", vec!["a"])).unwrap();
    e.push_fact(fact("foo", vec!["b"])).unwrap();
    e.push_fact(fact("foo", vec!["c"])).unwrap();
    e.push_rule(rule(fact("bar", vec!["X"]), vec![fact("foo", vec!["X"])]))
        .unwrap();

    let q = query("bar", vec!["X"]);

    let r = e.query(q).unwrap().unwrap();
    assert_eq!(r.len(), 3);
}
