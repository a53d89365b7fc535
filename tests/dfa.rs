use formally_cool::dfa::{DeterministicFiniteAutomata, Transition};
use std::collections::{BTreeMap, BTreeSet};

fn s(x: &str) -> String {
    x.to_string()
}

fn labels(items: &[&str]) -> Vec<String> {
    items.iter().map(|x| x.to_string()).collect()
}

fn set(items: &[&str]) -> BTreeSet<String> {
    items.iter().map(|x| x.to_string()).collect()
}

fn as_set(v: &[String]) -> BTreeSet<String> {
    v.iter().cloned().collect()
}

fn moves(entries: &[(&str, &str, &str)]) -> Vec<Transition> {
    entries
        .iter()
        .map(|(f, a, t)| Transition { from: s(f), symbol: s(a), to: s(t) })
        .collect()
}

fn table(ts: &[Transition]) -> BTreeMap<(String, String), String> {
    ts.iter().map(|t| ((t.from.clone(), t.symbol.clone()), t.to.clone())).collect()
}

fn expected_table(entries: &[(&str, &str, &str)]) -> BTreeMap<(String, String), String> {
    entries.iter().map(|(f, a, t)| ((s(f), s(a)), s(t))).collect()
}

fn dfa(states: &[&str], alphabet: &[&str], entries: &[(&str, &str, &str)], start: &str, accept: &[&str]) -> DeterministicFiniteAutomata {
    DeterministicFiniteAutomata {
        states: labels(states),
        alphabet: labels(alphabet),
        transition_function: moves(entries),
        start_state: s(start),
        accept_states: labels(accept),
    }
}

/// Accepts the empty word and the words that end in `a`.
fn ends_in_a() -> DeterministicFiniteAutomata {
    dfa(
        &["q0", "q1"],
        &["a", "b"],
        &[("q0", "a", "q0"), ("q0", "b", "q1"), ("q1", "a", "q0"), ("q1", "b", "q1")],
        "q0",
        &["q0"],
    )
}

fn ends_in_b() -> DeterministicFiniteAutomata {
    dfa(
        &["p0", "p1"],
        &["a", "b"],
        &[("p0", "a", "p0"), ("p0", "b", "p1"), ("p1", "a", "p0"), ("p1", "b", "p1")],
        "p0",
        &["p1"],
    )
}

fn words(alphabet: &[char], max_len: usize) -> Vec<String> {
    let mut all = vec![String::new()];
    let mut layer = vec![String::new()];
    for _ in 0..max_len {
        let mut next = Vec::new();
        for w in &layer {
            for c in alphabet {
                let mut v = w.clone();
                v.push(*c);
                next.push(v);
            }
        }
        all.extend(next.iter().cloned());
        layer = next;
    }
    all
}

#[test]
fn remove_unreachable_states() {
    let automata = dfa(
        &["q0", "q1", "q2", "q3"],
        &["a", "b"],
        &[
            ("q0", "a", "q0"),
            ("q0", "b", "q1"),
            ("q1", "a", "q0"),
            ("q1", "b", "q1"),
            ("q2", "a", "q0"),
            ("q2", "b", "q1"),
            ("q3", "a", "q0"),
            ("q3", "b", "q1"),
        ],
        "q0",
        &["q0", "q3"],
    );
    let automata = automata.remove_unreachable_states();
    assert_eq!(as_set(&automata.states), set(&["q0", "q1"]));
    assert_eq!(as_set(&automata.alphabet), set(&["a", "b"]));
    assert_eq!(
        table(&automata.transition_function),
        expected_table(&[("q0", "a", "q0"), ("q0", "b", "q1"), ("q1", "a", "q0"), ("q1", "b", "q1")])
    );
    assert_eq!(automata.start_state, s("q0"));
    assert_eq!(as_set(&automata.accept_states), set(&["q0"]));
}

#[test]
fn remove_non_productive_states() {
    let automata = dfa(
        &["q0", "q1", "q2", "q3", "q4"],
        &["a", "b"],
        &[
            ("q0", "a", "q0"),
            ("q0", "b", "q1"),
            ("q1", "a", "q2"),
            ("q1", "b", "q0"),
            ("q2", "a", "q3"),
            ("q2", "b", "q4"),
            ("q3", "a", "q4"),
            ("q3", "b", "q3"),
            ("q4", "a", "q3"),
            ("q4", "b", "q4"),
        ],
        "q0",
        &["q0"],
    );
    let automata = automata.remove_non_productive_states();
    assert_eq!(as_set(&automata.states), set(&["q0", "q1"]));
    assert_eq!(as_set(&automata.alphabet), set(&["a", "b"]));
    assert_eq!(
        table(&automata.transition_function),
        expected_table(&[("q0", "a", "q0"), ("q0", "b", "q1"), ("q1", "b", "q0")])
    );
    assert_eq!(automata.start_state, s("q0"));
    assert_eq!(as_set(&automata.accept_states), set(&["q0"]));
}

fn six_states() -> DeterministicFiniteAutomata {
    dfa(
        &["A", "B", "C", "D", "E", "F"],
        &["0", "1"],
        &[
            ("A", "0", "B"),
            ("A", "1", "C"),
            ("B", "0", "A"),
            ("B", "1", "D"),
            ("C", "0", "E"),
            ("C", "1", "F"),
            ("D", "0", "E"),
            ("D", "1", "F"),
            ("E", "0", "E"),
            ("E", "1", "F"),
            ("F", "0", "F"),
            ("F", "1", "F"),
        ],
        "A",
        &["C", "D", "E"],
    )
}

#[test]
fn remove_equivalent_states() {
    let automata = six_states().remove_equivalent_states();
    assert_eq!(as_set(&automata.states), set(&["(A, B)", "(C, D, E)", "(F)"]));
    assert_eq!(as_set(&automata.alphabet), set(&["0", "1"]));
    assert_eq!(
        table(&automata.transition_function),
        expected_table(&[
            ("(A, B)", "0", "(A, B)"),
            ("(A, B)", "1", "(C, D, E)"),
            ("(C, D, E)", "0", "(C, D, E)"),
            ("(C, D, E)", "1", "(F)"),
            ("(F)", "0", "(F)"),
            ("(F)", "1", "(F)"),
        ])
    );
    assert_eq!(automata.start_state, s("(A, B)"));
    assert_eq!(as_set(&automata.accept_states), set(&["(C, D, E)"]));
}

#[test]
fn merging_six_state_automaton_gives_three_classes() {
    let merged = six_states().remove_equivalent_states();
    assert_eq!(merged.states.len(), 3);
    for w in words(&['0', '1'], 6) {
        assert_eq!(merged.compute(&w), six_states().compute(&w), "word {:?}", w);
    }
}

#[test]
fn minimize_six_state_automaton_drops_the_dead_class() {
    let automata = six_states().minimize();
    assert_eq!(as_set(&automata.states), set(&["(A, B)", "(C, D, E)"]));
    assert_eq!(automata.start_state, s("(A, B)"));
    assert_eq!(as_set(&automata.accept_states), set(&["(C, D, E)"]));
    for w in words(&['0', '1'], 6) {
        assert_eq!(automata.compute(&w), six_states().compute(&w), "word {:?}", w);
    }
}

#[test]
fn compute_ends_in_a() {
    let d = ends_in_a();
    assert!(d.compute("aaa"));
    assert!(!d.compute("aab"));
    assert!(d.compute(""));
    assert!(d.compute("abababa"));
}

#[test]
fn compute_rejects_on_missing_move() {
    let d = dfa(&["q0", "q1"], &["a", "b"], &[("q0", "a", "q1")], "q0", &["q1"]);
    assert!(d.compute("a"));
    assert!(!d.compute("ab"));
    assert!(!d.compute("b"));
    assert!(!d.compute("c"));
}

#[test]
fn compute_is_repeatable() {
    let d = ends_in_a();
    for w in words(&['a', 'b'], 4) {
        assert_eq!(d.compute(&w), d.compute(&w));
    }
}

#[test]
fn complement_flips_acceptance_on_total_automaton() {
    let d = ends_in_a();
    let c = d.complement();
    assert_eq!(as_set(&c.accept_states), set(&["q1"]));
    for w in words(&['a', 'b'], 5) {
        assert_eq!(c.compute(&w), !d.compute(&w));
    }
}

#[test]
fn intersection_of_ends_in_a_and_ends_in_b_is_empty() {
    let both = ends_in_a().intersection(&ends_in_b());
    for w in words(&['a', 'b'], 5) {
        assert!(!both.compute(&w), "word {:?}", w);
    }
    let reachable = both.remove_unreachable_states();
    assert_eq!(both.states.len(), 1);
    assert_eq!(reachable.states.len(), 1);
    assert!(reachable.accept_states.is_empty());
}

#[test]
fn intersection_with_same_names_is_still_empty() {
    let ends_in_b_same_names = dfa(
        &["q0", "q1"],
        &["a", "b"],
        &[("q0", "a", "q0"), ("q0", "b", "q1"), ("q1", "a", "q0"), ("q1", "b", "q1")],
        "q0",
        &["q1"],
    );
    let both = ends_in_a().intersection(&ends_in_b_same_names);
    for w in words(&['a', 'b'], 5) {
        if !w.is_empty() {
            assert!(!both.compute(&w), "word {:?}", w);
        }
    }
}

#[test]
fn union_accepts_either_language() {
    let a = ends_in_a();
    let b = ends_in_b();
    let u = a.union(&b);
    for w in words(&['a', 'b'], 5) {
        assert_eq!(u.compute(&w), a.compute(&w) || b.compute(&w), "word {:?}", w);
    }
}

#[test]
fn intersection_accepts_both_languages() {
    let a = ends_in_a();
    let even_length = dfa(
        &["e", "o"],
        &["a", "b"],
        &[("e", "a", "o"), ("e", "b", "o"), ("o", "a", "e"), ("o", "b", "e")],
        "e",
        &["e"],
    );
    let i = a.intersection(&even_length);
    for w in words(&['a', 'b'], 5) {
        assert_eq!(i.compute(&w), a.compute(&w) && even_length.compute(&w), "word {:?}", w);
    }
}

#[test]
fn minimize_twice_accepts_the_same_words() {
    let once = six_states().minimize();
    let twice = once.minimize();
    assert_eq!(twice.states.len(), once.states.len());
    for w in words(&['0', '1'], 6) {
        assert_eq!(twice.compute(&w), once.compute(&w));
    }
}

#[test]
fn new_automaton_is_empty() {
    let d = DeterministicFiniteAutomata::new();
    assert!(d.states.is_empty());
    assert!(d.alphabet.is_empty());
    assert!(d.transition_function.is_empty());
    assert_eq!(d.start_state, "");
    assert!(d.accept_states.is_empty());
}

#[test]
fn editing_builds_the_ends_in_a_automaton() {
    let mut d = DeterministicFiniteAutomata::new();
    d.add_state(s("q0"));
    d.add_state(s("q1"));
    d.add_state(s("q1"));
    d.add_symbol(s("a"));
    d.add_symbol(s("b"));
    d.add_transition(s("q0"), s("a"), s("q0"));
    d.add_transition(s("q0"), s("b"), s("q0"));
    d.add_transition(s("q0"), s("b"), s("q1"));
    d.add_transition(s("q1"), s("a"), s("q0"));
    d.add_transition(s("q1"), s("b"), s("q1"));
    d.set_start_state(s("q0"));
    d.add_accept_state(s("q0"));
    assert_eq!(d.states.len(), 2);
    assert_eq!(d.transition_function.len(), 4);
    assert_eq!(table(&d.transition_function)[&(s("q0"), s("b"))], "q1");
    for w in words(&['a', 'b'], 4) {
        assert_eq!(d.compute(&w), ends_in_a().compute(&w));
    }
}

#[test]
fn removing_a_state_removes_its_moves() {
    let mut d = ends_in_a();
    d.remove_state("q1");
    assert_eq!(as_set(&d.states), set(&["q0"]));
    assert_eq!(table(&d.transition_function), expected_table(&[("q0", "a", "q0")]));
    assert!(!d.compute("b"));
    d.remove_accept_state("q0");
    assert!(!d.compute("a"));
}

#[test]
fn removing_a_symbol_removes_its_moves() {
    let mut d = ends_in_a();
    d.remove_symbol("b");
    assert_eq!(as_set(&d.alphabet), set(&["a"]));
    assert_eq!(table(&d.transition_function), expected_table(&[("q0", "a", "q0"), ("q1", "a", "q0")]));
    d.remove_transition("q0", "a");
    assert!(!d.compute("a"));
    assert!(d.compute(""));
}

#[test]
fn union_with_shared_state_names() {
    // Only the empty word, and nothing at all; both use the state name q0.
    let only_empty = dfa(&["q0"], &["a"], &[], "q0", &["q0"]);
    let nothing = dfa(&["q0"], &["a"], &[("q0", "a", "q0")], "q0", &[]);
    let u = only_empty.union(&nothing);
    assert!(u.compute(""));
    assert!(!u.compute("a"));
    assert!(!u.compute("aa"));
}

#[test]
fn intersection_of_partial_automata_over_different_alphabets() {
    // Words over {a, b} that start with a, and words over {a} of even length.
    let starts_with_a = dfa(&["s", "t"], &["a", "b"], &[("s", "a", "t"), ("t", "a", "t"), ("t", "b", "t")], "s", &["t"]);
    let even_a = dfa(&["e", "o"], &["a"], &[("e", "a", "o"), ("o", "a", "e")], "e", &["e"]);
    let i = starts_with_a.intersection(&even_a);
    for w in words(&['a', 'b'], 5) {
        assert_eq!(i.compute(&w), starts_with_a.compute(&w) && even_a.compute(&w), "word {:?}", w);
    }
    let u = starts_with_a.union(&even_a);
    for w in words(&['a', 'b'], 5) {
        assert_eq!(u.compute(&w), starts_with_a.compute(&w) || even_a.compute(&w), "word {:?}", w);
    }
}

#[test]
fn minimized_union_has_no_equivalent_states() {
    let u = ends_in_a().union(&ends_in_b());
    // Every word over {a, b} is accepted, so one accepting state is enough.
    assert_eq!(u.states.len(), 1);
    assert_eq!(u.accept_states.len(), 1);
}

#[test]
fn prepared_automaton_is_renamed_and_completed() {
    let d = dfa(&["q0", "q1"], &["a"], &[("q0", "a", "q1")], "q0", &["q1"]);
    let p = d.prepared("1", &labels(&["a", "b"]));
    assert_eq!(as_set(&p.states), set(&["1(q0)", "1(q1)", "1"]));
    assert_eq!(p.start_state, "1(q0)");
    assert_eq!(as_set(&p.accept_states), set(&["1(q1)"]));
    assert_eq!(
        table(&p.transition_function),
        expected_table(&[
            ("1(q0)", "a", "1(q1)"),
            ("1(q0)", "b", "1"),
            ("1(q1)", "a", "1"),
            ("1(q1)", "b", "1"),
            ("1", "a", "1"),
            ("1", "b", "1"),
        ])
    );
    for w in words(&['a', 'b'], 4) {
        assert_eq!(p.compute(&w), d.compute(&w));
    }
}

#[test]
fn empty_state_label_is_accepted_by_the_combinations() {
    // The empty label names a state; it must not clash with anything.
    let d = dfa(&["", "x"], &["a"], &[("", "a", "x"), ("x", "a", "")], "", &["x"]);
    let merged = d.remove_equivalent_states();
    assert_eq!(as_set(&merged.states), set(&["()", "(x)"]));
    assert_eq!(merged.start_state, "()");
    let m = d.minimize();
    let e = dfa(&["p"], &["a"], &[("p", "a", "p")], "p", &["p"]);
    let u = d.union(&e);
    let i = d.intersection(&e);
    for w in words(&['a'], 5) {
        assert_eq!(m.compute(&w), d.compute(&w));
        assert_eq!(u.compute(&w), d.compute(&w) || e.compute(&w));
        assert_eq!(i.compute(&w), d.compute(&w) && e.compute(&w));
    }
    let p = d.prepared("1", &labels(&["a"]));
    assert_eq!(as_set(&p.states), set(&["1()", "1(x)", "1"]));
}

#[test]
fn merging_keeps_a_missing_move_apart_from_a_dead_move() {
    // p moves on a into a dead state, q has no move at all; both reject every word.
    let d = dfa(&["p", "q", "dead"], &["a"], &[("p", "a", "dead"), ("dead", "a", "dead")], "p", &[]);
    let merged = d.remove_equivalent_states();
    assert_eq!(as_set(&merged.states), set(&["(dead, p)", "(q)"]));
    assert_eq!(merged.start_state, "(dead, p)");
    assert_eq!(table(&merged.transition_function), expected_table(&[("(dead, p)", "a", "(dead, p)")]));
}
