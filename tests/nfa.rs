use formally_cool::dfa::{DeterministicFiniteAutomata, Transition};
use formally_cool::editor::{Cfg, Dfa, Nfa, Rg};
use formally_cool::grammar::RegularGrammar;
use formally_cool::nfa::{NfaTransition, NondeterministicFiniteAutomata};
use std::collections::{BTreeMap, BTreeSet};

fn s(x: &str) -> String {
    x.to_string()
}

fn labels(items: &[&str]) -> Vec<String> {
    items.iter().map(|x| x.to_string()).collect()
}

fn set(items: &[&str]) -> BTreeSet<String> {
    items.iter().map(|x| x.to_string()).collect()
}

fn nfa_moves(entries: &[(&str, &str, &[&str])]) -> Vec<NfaTransition> {
    entries
        .iter()
        .map(|(f, a, t)| NfaTransition { from: s(f), symbol: s(a), to: labels(t) })
        .collect()
}

fn relation(n: &NondeterministicFiniteAutomata) -> BTreeMap<(String, String), BTreeSet<String>> {
    n.transition_function
        .iter()
        .map(|t| ((t.from.clone(), t.symbol.clone()), t.to.iter().cloned().collect()))
        .collect()
}

fn words(alphabet: &[char], max_len: usize) -> Vec<String> {
    let mut all = vec![String::new()];
    let mut layer = vec![String::new()];
    for _ in 0..max_len {
        let mut next = Vec::new();
        for w in &layer {
            for c in alphabet {
                let mut v = w.clone();
                v.push(*c);
                next.push(v);
            }
        }
        all.extend(next.iter().cloned());
        layer = next;
    }
    all
}

/// Direct simulation with empty-word closure, written independently of the library.
fn simulate(n: &NondeterministicFiniteAutomata, w: &str) -> bool {
    let rel = relation(n);
    let close = |set: BTreeSet<String>| -> BTreeSet<String> {
        let mut out = set.clone();
        loop {
            let mut grew = false;
            for q in out.clone() {
                if let Some(next) = rel.get(&(q.clone(), s("&"))) {
                    for t in next {
                        if out.insert(t.clone()) {
                            grew = true;
                        }
                    }
                }
            }
            if !grew {
                return out;
            }
        }
    };
    let mut current = close([n.start_state.clone()].into_iter().collect());
    for c in w.chars() {
        let mut next = BTreeSet::new();
        for q in &current {
            if let Some(ts) = rel.get(&(q.clone(), c.to_string())) {
                next.extend(ts.iter().cloned());
            }
        }
        current = close(next);
    }
    current.iter().any(|q| n.accept_states.contains(q))
}

fn sipser_nfa() -> NondeterministicFiniteAutomata {
    NondeterministicFiniteAutomata {
        states: labels(&["q1", "q2", "q3"]),
        alphabet: labels(&["a", "b"]),
        start_state: s("q1"),
        transition_function: nfa_moves(&[
            ("q1", "&", &["q3"]),
            ("q1", "b", &["q2"]),
            ("q2", "a", &["q2", "q3"]),
            ("q2", "b", &["q3"]),
            ("q3", "&", &["q2"]),
            ("q3", "a", &["q1"]),
        ]),
        accept_states: labels(&["q1"]),
    }
}

#[test]
fn subset_construction_matches_simulation() {
    let n = sipser_nfa();
    let d = DeterministicFiniteAutomata::from_nfa(&n);
    assert_eq!(d.states.len(), 8);
    assert_eq!(d.start_state, "(q1, q2, q3)");
    for w in words(&['a', 'b'], 5) {
        assert_eq!(d.compute(&w), simulate(&n, &w), "word {:?}", w);
    }
}

#[test]
fn subset_construction_moves() {
    let d = DeterministicFiniteAutomata::from_nfa(&sipser_nfa());
    let table: BTreeMap<(String, String), String> = d
        .transition_function
        .iter()
        .map(|t| ((t.from.clone(), t.symbol.clone()), t.to.clone()))
        .collect();
    assert_eq!(table[&(s("(q1, q2, q3)"), s("a"))], "(q1, q2, q3)");
    assert_eq!(table[&(s("(q1, q2, q3)"), s("b"))], "(q2, q3)");
    assert_eq!(table[&(s("()"), s("a"))], "()");
    assert!(d.accept_states.contains(&s("(q1)")));
    assert!(!d.accept_states.contains(&s("(q2, q3)")));
}

#[test]
fn epsilon_closure_follows_empty_moves() {
    let n = sipser_nfa();
    let c: BTreeSet<String> = n.epsilon_closure(&s("q1")).into_iter().collect();
    assert_eq!(c, set(&["q1", "q2", "q3"]));
    let c: BTreeSet<String> = n.epsilon_closure(&s("q2")).into_iter().collect();
    assert_eq!(c, set(&["q2"]));
}

#[test]
fn nfa_union_has_a_fresh_start() {
    let left = NondeterministicFiniteAutomata {
        states: labels(&["q0", "q1"]),
        alphabet: labels(&["a"]),
        start_state: s("q0"),
        transition_function: nfa_moves(&[("q0", "a", &["q1"])]),
        accept_states: labels(&["q1"]),
    };
    let right = NondeterministicFiniteAutomata {
        states: labels(&["p0"]),
        alphabet: labels(&["b"]),
        start_state: s("p0"),
        transition_function: nfa_moves(&[("p0", "b", &["p0"])]),
        accept_states: labels(&["p0"]),
    };
    let u = left.union(&right);
    assert_eq!(u.start_state, "q2");
    let states: BTreeSet<String> = u.states.iter().cloned().collect();
    assert_eq!(states, set(&["q0", "q1", "p0", "q2"]));
    let rel = relation(&u);
    assert_eq!(rel[&(s("q2"), s("&"))], set(&["q0", "p0"]));
    assert_eq!(rel[&(s("q0"), s("a"))], set(&["q1"]));
    assert_eq!(rel[&(s("p0"), s("b"))], set(&["p0"]));
    for w in words(&['a', 'b'], 4) {
        assert_eq!(simulate(&u, &w), simulate(&left, &w) || simulate(&right, &w));
    }
}

#[test]
fn nfa_from_dfa_uses_singletons() {
    let d = DeterministicFiniteAutomata {
        states: labels(&["q0", "q1"]),
        alphabet: labels(&["a", "b"]),
        transition_function: vec![Transition { from: s("q0"), symbol: s("a"), to: s("q1") }],
        start_state: s("q0"),
        accept_states: labels(&["q1"]),
    };
    let n = NondeterministicFiniteAutomata::from_dfa(&d);
    let rel = relation(&n);
    assert_eq!(rel.len(), 1);
    assert_eq!(rel[&(s("q0"), s("a"))], set(&["q1"]));
}

#[test]
fn round_trip_through_grammar_keeps_the_language() {
    let d = DeterministicFiniteAutomata {
        states: labels(&["q0", "q1"]),
        alphabet: labels(&["a", "b"]),
        transition_function: vec![
            Transition { from: s("q0"), symbol: s("a"), to: s("q0") },
            Transition { from: s("q0"), symbol: s("b"), to: s("q1") },
            Transition { from: s("q1"), symbol: s("a"), to: s("q0") },
            Transition { from: s("q1"), symbol: s("b"), to: s("q1") },
        ],
        start_state: s("q0"),
        accept_states: labels(&["q0"]),
    };
    let g = RegularGrammar::from_dfa(&d);
    let n = NondeterministicFiniteAutomata::from_grammar(&g);
    let back = DeterministicFiniteAutomata::from_nfa(&n);
    for w in words(&['a', 'b'], 5) {
        if !w.is_empty() {
            assert_eq!(back.compute(&w), d.compute(&w), "word {:?}", w);
        }
    }
}

#[test]
fn nfa_compute_matches_simulation() {
    let n = sipser_nfa();
    for w in words(&['a', 'b'], 5) {
        assert_eq!(n.compute(&w), simulate(&n, &w), "word {:?}", w);
    }
    assert!(n.compute(""));
    assert!(!n.compute("c"));
}

#[test]
fn editor_sessions_start_empty() {
    let _sessions = (Dfa::new(), Nfa::new(), Rg::new(), Cfg::new());
    let d = Dfa::new_dfa();
    assert!(d.states.is_empty() && d.transition_function.is_empty() && d.start_state.is_empty());
    let n = Nfa::new_nfa();
    assert!(n.states.is_empty() && n.transition_function.is_empty());
    let g = Rg::new_rg();
    assert!(g.variables.is_empty() && g.rules.is_empty());
    let c = Cfg::new_cfg();
    assert!(c.variables.is_empty() && c.rules.is_empty());
}

#[test]
fn editing_a_nondeterministic_automaton() {
    let mut n = NondeterministicFiniteAutomata::new();
    n.add_state(s("q1"));
    n.add_state(s("q2"));
    n.add_state(s("q3"));
    n.add_symbol(s("a"));
    n.add_symbol(s("b"));
    n.add_transition(s("q1"), s("&"), s("q3"));
    n.add_transition(s("q1"), s("b"), s("q2"));
    n.add_transition(s("q2"), s("a"), s("q2"));
    n.add_transition(s("q2"), s("a"), s("q3"));
    n.add_transition(s("q2"), s("b"), s("q3"));
    n.add_transition(s("q3"), s("&"), s("q2"));
    n.add_transition(s("q3"), s("a"), s("q1"));
    n.set_start_state(s("q1"));
    n.add_accept_state(s("q1"));
    assert_eq!(relation(&n), relation(&sipser_nfa()));
    for w in words(&['a', 'b'], 4) {
        assert_eq!(n.compute(&w), simulate(&sipser_nfa(), &w));
    }
    n.remove_transition("q3", "a");
    assert!(!relation(&n).contains_key(&(s("q3"), s("a"))));
    n.remove_symbol("b");
    assert!(relation(&n).keys().all(|(_, a)| a != "b"));
    n.remove_state("q2");
    let rel = relation(&n);
    assert!(rel.keys().all(|(q, _)| q != "q2"));
    assert!(rel.values().all(|t| !t.contains("q2")));
    n.remove_accept_state("q1");
    assert!(n.accept_states.is_empty());
}
