use formally_cool::context_free::{CfgRule, ContextFreeGrammar};
use formally_cool::dfa::{DeterministicFiniteAutomata, Transition};
use formally_cool::grammar::{RegularGrammar, Rule};
use formally_cool::nfa::NondeterministicFiniteAutomata;
use std::collections::{BTreeMap, BTreeSet};

fn s(x: &str) -> String {
    x.to_string()
}

fn labels(items: &[&str]) -> Vec<String> {
    items.iter().map(|x| x.to_string()).collect()
}

fn set(items: &[&str]) -> BTreeSet<String> {
    items.iter().map(|x| x.to_string()).collect()
}

fn cfg_rules(rules: &[(&str, &[&[&str]])]) -> Vec<CfgRule> {
    rules
        .iter()
        .map(|(v, ps)| CfgRule { variable: s(v), productions: ps.iter().map(|p| labels(p)).collect() })
        .collect()
}

fn rule_table(rules: &[CfgRule]) -> BTreeMap<String, BTreeSet<Vec<String>>> {
    rules
        .iter()
        .map(|r| (r.variable.clone(), r.productions.iter().cloned().collect()))
        .collect()
}

fn make_sipser_cfg_example() -> ContextFreeGrammar {
    let mut cfg = ContextFreeGrammar::new();
    cfg.variables = labels(&["<S>", "<A>", "<B>"]);
    cfg.terminals = labels(&["a", "b"]);
    cfg.rules = cfg_rules(&[
        ("<S>", &[&["<A>", "<S>", "<A>"], &["a", "<B>"]]),
        ("<A>", &[&["<B>"], &["<S>"]]),
        ("<B>", &[&["b"], &["&"]]),
    ]);
    cfg.start_variable = s("<S>");
    cfg
}

fn make_sipser_cfg_example_with_new_variable() -> ContextFreeGrammar {
    let mut cfg = ContextFreeGrammar::new();
    cfg.variables = labels(&["<S_0>", "<S>", "<A>", "<B>"]);
    cfg.terminals = labels(&["a", "b"]);
    cfg.rules = cfg_rules(&[
        ("<S_0>", &[&["<S>"]]),
        ("<S>", &[&["<A>", "<S>", "<A>"], &["a", "<B>"]]),
        ("<A>", &[&["<B>"], &["<S>"]]),
        ("<B>", &[&["b"], &["&"]]),
    ]);
    cfg.start_variable = s("<S_0>");
    cfg
}

fn make_sipser_cfg_example_with_removed_epsilon_productions() -> ContextFreeGrammar {
    let mut cfg = ContextFreeGrammar::new();
    cfg.variables = labels(&["<S_0>", "<S>", "<A>", "<B>"]);
    cfg.terminals = labels(&["a", "b"]);
    cfg.rules = cfg_rules(&[
        ("<S_0>", &[&["<S>"]]),
        (
            "<S>",
            &[
                &["<A>", "<S>", "<A>"],
                &["a", "<B>"],
                &["a"],
                &["<S>", "<A>"],
                &["<A>", "<S>"],
                &["<S>"],
            ],
        ),
        ("<A>", &[&["<B>"], &["<S>"]]),
        ("<B>", &[&["b"]]),
    ]);
    cfg.start_variable = s("<S_0>");
    cfg
}

#[test]
fn test_create_new_start_variable() {
    let cfg = make_sipser_cfg_example();
    let correct_cfg = make_sipser_cfg_example_with_new_variable();
    let new_cfg = cfg.create_new_start_variable();
    assert_eq!(set_of(&new_cfg.terminals), set_of(&correct_cfg.terminals));
    assert_eq!(set_of(&new_cfg.variables), set_of(&correct_cfg.variables));
    assert_eq!(rule_table(&new_cfg.rules), rule_table(&correct_cfg.rules));
    assert_eq!(new_cfg.start_variable, correct_cfg.start_variable);
}

#[test]
fn test_remove_epsilon_productions() {
    let cfg = make_sipser_cfg_example_with_new_variable();
    let correct_cfg = make_sipser_cfg_example_with_removed_epsilon_productions();
    let new_cfg = cfg.remove_epsilon_productions();
    assert_eq!(set_of(&new_cfg.terminals), set_of(&correct_cfg.terminals));
    assert_eq!(set_of(&new_cfg.variables), set_of(&correct_cfg.variables));
    assert_eq!(rule_table(&new_cfg.rules), rule_table(&correct_cfg.rules));
    assert_eq!(new_cfg.start_variable, correct_cfg.start_variable);
}

fn set_of(v: &[String]) -> BTreeSet<String> {
    v.iter().cloned().collect()
}

#[test]
fn new_start_variable_skips_taken_names() {
    let mut cfg = make_sipser_cfg_example();
    cfg.variables.push(s("<S_0>"));
    let new_cfg = cfg.create_new_start_variable();
    assert_eq!(new_cfg.start_variable, "<S_1>");
}

#[test]
fn start_variable_keeps_its_empty_production() {
    let mut cfg = ContextFreeGrammar::new();
    cfg.variables = labels(&["<S>"]);
    cfg.terminals = labels(&["a"]);
    cfg.rules = cfg_rules(&[("<S>", &[&["&"], &["a", "<S>"]])]);
    cfg.start_variable = s("<S>");
    let r = cfg.remove_epsilon_productions();
    let table = rule_table(&r.rules);
    let expected: BTreeSet<Vec<String>> = [labels(&["&"]), labels(&["a", "<S>"]), labels(&["a"])].into_iter().collect();
    assert_eq!(table[&s("<S>")], expected);
}

fn sample_dfa() -> DeterministicFiniteAutomata {
    DeterministicFiniteAutomata {
        states: labels(&["q0", "q1"]),
        alphabet: labels(&["a", "b"]),
        transition_function: vec![
            Transition { from: s("q0"), symbol: s("a"), to: s("q0") },
            Transition { from: s("q0"), symbol: s("b"), to: s("q1") },
            Transition { from: s("q1"), symbol: s("a"), to: s("q0") },
            Transition { from: s("q1"), symbol: s("b"), to: s("q1") },
        ],
        start_state: s("q0"),
        accept_states: labels(&["q0"]),
    }
}

#[test]
fn grammar_of_automaton() {
    let g = RegularGrammar::from_dfa(&sample_dfa());
    assert_eq!(set_of(&g.variables), set(&["<q0>", "<q1>"]));
    assert_eq!(set_of(&g.terminals), set(&["a", "b"]));
    assert_eq!(g.start_variable, "<q0>");
    let rules: BTreeMap<String, BTreeSet<String>> =
        g.rules.iter().map(|r| (r.variable.clone(), r.productions.iter().cloned().collect())).collect();
    assert_eq!(rules[&s("<q0>")], set(&["a<q0>", "a", "b<q1>"]));
    assert_eq!(rules[&s("<q1>")], set(&["a<q0>", "a", "b<q1>"]));
}

#[test]
fn automaton_of_grammar() {
    let g = RegularGrammar {
        variables: labels(&["<S>", "<A>"]),
        terminals: labels(&["a", "b"]),
        rules: vec![
            Rule { variable: s("<S>"), productions: labels(&["a<A>", "b"]) },
            Rule { variable: s("<A>"), productions: labels(&["a"]) },
        ],
        start_variable: s("<S>"),
    };
    let n = NondeterministicFiniteAutomata::from_grammar(&g);
    assert_eq!(set_of(&n.states), set(&["S", "A", "accept"]));
    assert_eq!(n.start_state, "S");
    assert_eq!(set_of(&n.accept_states), set(&["accept"]));
    let rel: BTreeMap<(String, String), BTreeSet<String>> = n
        .transition_function
        .iter()
        .map(|t| ((t.from.clone(), t.symbol.clone()), t.to.iter().cloned().collect()))
        .collect();
    assert_eq!(rel[&(s("S"), s("a"))], set(&["A"]));
    assert_eq!(rel[&(s("S"), s("b"))], set(&["accept"]));
    assert_eq!(rel[&(s("A"), s("a"))], set(&["accept"]));
    assert_eq!(rel[&(s("A"), s("b"))], set(&[]));
    let d = DeterministicFiniteAutomata::from_nfa(&n);
    assert!(d.compute("aa"));
    assert!(d.compute("b"));
    assert!(!d.compute("a"));
    assert!(!d.compute("ab"));
}
