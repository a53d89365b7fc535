use formally_cool::codec;
use formally_cool::codec::CodecError;
use std::collections::BTreeSet;

fn labels(items: &[&str]) -> Vec<String> {
    items.iter().map(|s| s.to_string()).collect()
}

fn as_set(v: Vec<String>) -> BTreeSet<String> {
    v.into_iter().collect()
}

#[test]
fn set_to_state() {
    let states = labels(&["q0", "q1", "q2", "q3"]);
    let state = codec::set_to_state(&states);
    assert_eq!(state, String::from("(q0, q1, q2, q3)"));

    let states = labels(&["", "1", "(2, 3)", "(2, 3, (2))"]);
    let state = codec::set_to_state(&states);
    assert_eq!(state, String::from("(, (2, 3), (2, 3, (2)), 1)"));
}

#[test]
fn state_to_set() {
    let cases: Vec<(&str, Vec<&str>)> = vec![
        ("", vec![""]),
        ("q0", vec!["q0"]),
        ("()", vec![""]),
        ("(q0)", vec!["q0"]),
        ("(q0, q1)", vec!["q0", "q1"]),
        ("(())", vec!["()"]),
        ("((q0))", vec!["(q0)"]),
        ("((q0), (q1))", vec!["(q0)", "(q1)"]),
        ("((q0), (q1), q2)", vec!["(q0)", "(q1)", "q2"]),
        (
            "((q0, q1, (q2)), (q1, (q2, q3, (q3))), q2)",
            vec!["(q0, q1, (q2))", "(q1, (q2, q3, (q3)))", "q2"],
        ),
    ];
    for (state, expected) in cases {
        let set = codec::state_to_set(&state.to_string()).unwrap();
        assert_eq!(as_set(set), as_set(labels(&expected)));
    }
}

#[test]
fn encode_is_order_independent_and_deduplicates() {
    let a = codec::set_to_state(&labels(&["b", "a", "c"]));
    let b = codec::set_to_state(&labels(&["c", "c", "b", "a"]));
    assert_eq!(a, "(a, b, c)");
    assert_eq!(a, b);
}

#[test]
fn encode_empty_set() {
    assert_eq!(codec::set_to_state(&Vec::new()), "()");
}

#[test]
fn decode_of_encode_round_trip() {
    let sets: Vec<Vec<&str>> = vec![
        vec!["q0"],
        vec!["q0", "q1", "q2"],
        vec!["accept", "start", "x y"],
        vec!["(q0, q1)", "q2"],
        vec!["((a), b)", "(c)"],
        vec!["", "a"],
        vec![""],
        vec![" a", "b c"],
    ];
    for s in sets {
        let original = as_set(labels(&s));
        let name = codec::set_to_state(&labels(&s));
        let back = codec::state_to_set(&name).unwrap();
        assert_eq!(as_set(back), original);
    }
}

#[test]
fn decode_rejects_unbalanced_names() {
    for bad in ["(a", "(a))", "((a)", "(a)(b)", "(a))("] {
        assert_eq!(codec::state_to_set(&bad.to_string()), Err(CodecError::MalformedStateName));
    }
}

#[test]
fn decode_of_bare_label_is_itself() {
    let set = codec::state_to_set(&"a)b".to_string()).unwrap();
    assert_eq!(as_set(set), as_set(labels(&["a)b"])));
}
