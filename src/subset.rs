//! From a nondeterministic automaton to a deterministic one whose states are
//! sets of states.
use vstd::prelude::*;
use crate::codec::{encode, is_member_label, labels, lemma_encode_injective, lemma_encode_member, set_to_state};
use crate::collection::{
    concat_labels, contains_label, copy_labels, distinct_labels, lemma_set_of_index, lemma_set_of_push,
    set_of,
};
use crate::dfa::{dfa_wf, key_of, lemma_table_key, table, DeterministicFiniteAutomata, Transition};
use crate::nfa::{
    eclose, lemma_eclose_in_states, moves, nfa_wf, NfaView, NondeterministicFiniteAutomata, find_moves,
};

verus! {

/// The composite names of the subsets of `q`.
pub open spec fn subset_names(q: Set<Seq<char>>) -> Set<Seq<char>> {
    Set::new(|x: Seq<char>| exists|s: Set<Seq<char>>| s.subset_of(q) && x == encode(s))
}

/// The composite names of the subsets of the states that hold an accept state.
pub open spec fn accepting_names(n: NfaView) -> Set<Seq<char>> {
    Set::new(
        |x: Seq<char>|
            exists|s: Set<Seq<char>>|
                s.subset_of(n.states) && x == encode(s) && exists|y: Seq<char>| s.contains(y) && n.accept.contains(y),
    )
}

/// The states reached from `s` on `a`: the empty-word closure of each
/// state that a member of `s` moves to on `a`.
pub open spec fn subset_step(n: NfaView, s: Set<Seq<char>>, a: Seq<char>) -> Set<Seq<char>> {
    Set::new(
        |y: Seq<char>|
            exists|x: Seq<char>, z: Seq<char>|
                s.contains(x) && #[trigger] moves(n, x, a).contains(z) && #[trigger] eclose(n, set![z]).contains(y),
    )
}

/// From the name of a subset `s` of the states, on a symbol `a` of the
/// alphabet, `d` moves to the name of the subset reached.
pub open spec fn moves_like_subsets(d: crate::dfa::DfaView, n: NfaView, s: Set<Seq<char>>, a: Seq<char>) -> bool {
    s.subset_of(n.states) && n.alphabet.contains(a) ==> d.delta.contains_key((encode(s), a)) && d.delta[(encode(s), a)]
        == encode(subset_step(n, s, a))
}

/// Some entry came from set `y` and symbol `b`.
pub open spec fn covers(origin: Seq<(int, int)>, y: int, b: int) -> bool {
    exists|e: int| 0 <= e < origin.len() && #[trigger] origin[e] == (y, b)
}

/// Every subset of the labels `qs[from..]`, each as a vector.
fn all_subsets(qs: &Vec<String>, from: usize) -> (r: Vec<Vec<String>>)
    requires
        from <= qs.len(),
    ensures
        forall|j: int| 0 <= j < r.len() ==> set_of((#[trigger] r[j])@).subset_of(set_of(qs@.skip(from as int))),
        forall|s: Set<Seq<char>>| #[trigger] s.subset_of(set_of(qs@.skip(from as int))) ==> exists|j: int|
            0 <= j < r.len() && set_of((#[trigger] r[j])@) == s,
    decreases qs.len() - from,
{
    if from == qs.len() {
        let mut r: Vec<Vec<String>> = Vec::new();
        r.push(Vec::new());
        proof {
            assert(set_of(r[0]@) =~= Set::empty());
            assert(qs@.skip(from as int) =~= Seq::<String>::empty());
            assert(set_of(qs@.skip(from as int)) =~= Set::empty());
            assert forall|s: Set<Seq<char>>| #[trigger] s.subset_of(set_of(qs@.skip(from as int))) implies exists|j: int|
                0 <= j < r.len() && set_of((#[trigger] r[j])@) == s by {
                assert(s =~= Set::empty());
                assert(set_of(r[0]@) == s);
            }
        }
        return r;
    }
    let rest = all_subsets(qs, from + 1);
    let ghost tail = set_of(qs@.skip(from + 1));
    let ghost whole = set_of(qs@.skip(from as int));
    let ghost head = qs@[from as int]@;
    proof {
        assert(qs@.skip(from as int) =~= seq![qs@[from as int]] + qs@.skip(from + 1));
        assert forall|x: Seq<char>| whole.contains(x) <==> (x == head || tail.contains(x)) by {
            let w = qs@.skip(from as int);
            if whole.contains(x) {
                let k = choose|k: int| 0 <= k < labels(w).len() && labels(w)[k] == x;
                if k > 0 {
                    assert(labels(qs@.skip(from + 1))[k - 1] == x);
                }
            }
            if x == head {
                assert(labels(w)[0] == x);
            }
            if tail.contains(x) {
                let t = labels(qs@.skip(from + 1));
                let k = choose|k: int| 0 <= k < t.len() && t[k] == x;
                assert(labels(w)[k + 1] == x);
            }
        }
    }
    let mut r: Vec<Vec<String>> = Vec::new();
    let n = rest.len();
    let mut j: usize = 0;
    while j < n
        invariant
            n == rest.len(),
            j <= n,
            r.len() == j,
            forall|x: int| 0 <= x < j ==> set_of((#[trigger] r[x])@) == set_of(rest[x]@),
        decreases n - j,
    {
        let ghost before = r@;
        let v = copy_labels(&rest[j]);
        r.push(v);
        proof {
            assert forall|x: int| 0 <= x < j implies #[trigger] r@[x] == before[x] by {}
        }
        j = j + 1;
    }
    let mut j: usize = 0;
    while j < n
        invariant
            n == rest.len(),
            from < qs.len(),
            head == qs@[from as int]@,
            j <= n,
            r.len() == n + j,
            forall|x: int| 0 <= x < n ==> set_of((#[trigger] r[x])@) == set_of(rest[x]@),
            forall|x: int| n <= x < n + j ==> set_of((#[trigger] r[x])@) == set_of(rest[x - n]@).insert(head),
        decreases n - j,
    {
        let ghost before = r@;
        let mut w = copy_labels(&rest[j]);
        proof {
            lemma_set_of_push(w@, qs@[from as int]);
        }
        w.push(qs[from].clone());
        r.push(w);
        proof {
            assert forall|x: int| 0 <= x < n + j implies #[trigger] r@[x] == before[x] by {}
        }
        j = j + 1;
    }
    proof {
        assert forall|x: int| 0 <= x < r.len() implies set_of((#[trigger] r[x])@).subset_of(whole) by {
            if x < n {
                assert(set_of(rest[x]@).subset_of(tail));
            } else {
                assert(set_of(rest[x - n]@).subset_of(tail));
            }
        }
        assert forall|s: Set<Seq<char>>| #[trigger] s.subset_of(whole) implies exists|x: int|
            0 <= x < r.len() && set_of((#[trigger] r[x])@) == s by {
            if s.contains(head) {
                let s2 = s.remove(head);
                assert(s2.subset_of(tail));
                let h = choose|h: int| 0 <= h < rest.len() && set_of((#[trigger] rest[h])@) == s2;
                assert(set_of(r[n + h]@) == set_of(rest[h]@).insert(head));
                assert(s2.insert(head) =~= s);
            } else {
                assert(s.subset_of(tail));
                let h = choose|h: int| 0 <= h < rest.len() && set_of((#[trigger] rest[h])@) == s;
                assert(set_of(r[h]@) == s);
            }
        }
    }
    r
}

/// The states reached from the members of `sv` on `a`, closed under empty-word moves.
fn successor(n: &NondeterministicFiniteAutomata, sv: &Vec<String>, a: &String) -> (r: Vec<String>)
    requires
        nfa_wf(n@),
        set_of(sv@).subset_of(n@.states),
    ensures
        set_of(r@) == subset_step(n@, set_of(sv@), a@),
{
    let ghost nv = n@;
    let mut acc: Vec<String> = Vec::new();
    let mut i: usize = 0;
    proof {
        assert(set_of(acc@) =~= subset_step(nv, set_of(sv@.take(0)), a@));
    }
    while i < sv.len()
        invariant
            nv == n@,
            nfa_wf(nv),
            set_of(sv@).subset_of(nv.states),
            i <= sv.len(),
            set_of(acc@) == subset_step(nv, set_of(sv@.take(i as int)), a@),
        decreases sv.len() - i,
    {
        let ghost x = sv@[i as int]@;
        let ghost prev = subset_step(nv, set_of(sv@.take(i as int)), a@);
        let mut tgts: Vec<String> = Vec::new();
        match find_moves(&n.transition_function, sv[i].as_str(), a.as_str()) {
            Some(m) => {
                tgts = copy_labels(&n.transition_function[m].to);
            },
            None => {
                proof {
                    assert(set_of(tgts@) =~= Set::empty());
                }
            },
        }
        proof {
            assert(set_of(tgts@) == moves(nv, x, a@));
            lemma_set_of_index(sv@, i as int);
        }
        let mut j: usize = 0;
        proof {
            assert(set_of(acc@) =~= prev.union(Set::new(
                |y: Seq<char>| exists|z: Seq<char>| set_of(tgts@.take(0)).contains(z) && #[trigger] eclose(nv, set![z]).contains(y),
            )));
        }
        while j < tgts.len()
            invariant
                nv == n@,
                nfa_wf(nv),
                set_of(tgts@) == moves(nv, x, a@),
                nv.states.contains(x),
                j <= tgts.len(),
                set_of(acc@) == prev.union(Set::new(
                    |y: Seq<char>| exists|z: Seq<char>| set_of(tgts@.take(j as int)).contains(z) && #[trigger] eclose(nv, set![z]).contains(y),
                )),
            decreases tgts.len() - j,
        {
            let ghost z = tgts@[j as int]@;
            proof {
                lemma_set_of_index(tgts@, j as int);
                assert(nv.delta.contains_key((x, a@)));
                assert(nv.states.contains(z));
            }
            let closure = n.epsilon_closure(&tgts[j]);
            let ghost old_acc = set_of(acc@);
            acc = concat_labels(&acc, &closure);
            proof {
                assert(tgts@.take(j + 1) =~= tgts@.take(j as int).push(tgts@[j as int]));
                lemma_set_of_push(tgts@.take(j as int), tgts@[j as int]);
                assert(set_of(acc@) =~= prev.union(Set::new(
                    |y: Seq<char>| exists|z: Seq<char>| set_of(tgts@.take(j + 1)).contains(z) && #[trigger] eclose(nv, set![z]).contains(y),
                )));
            }
            j = j + 1;
        }
        proof {
            assert(tgts@.take(j as int) =~= tgts@);
            assert(sv@.take(i + 1) =~= sv@.take(i as int).push(sv@[i as int]));
            lemma_set_of_push(sv@.take(i as int), sv@[i as int]);
            let now = subset_step(nv, set_of(sv@.take(i + 1)), a@);
            assert forall|y: Seq<char>| set_of(acc@).contains(y) <==> now.contains(y) by {
                if now.contains(y) {
                    let (x1, z1) = choose|x1: Seq<char>, z1: Seq<char>|
                        set_of(sv@.take(i + 1)).contains(x1) && #[trigger] moves(nv, x1, a@).contains(z1) && #[trigger] eclose(nv, set![z1]).contains(y);
                    if x1 != x {
                        assert(prev.contains(y));
                    } else {
                        assert(set_of(tgts@).contains(z1));
                    }
                }
                if set_of(acc@).contains(y) && !prev.contains(y) {
                    let z1 = choose|z1: Seq<char>| set_of(tgts@).contains(z1) && #[trigger] eclose(nv, set![z1]).contains(y);
                    assert(set_of(sv@.take(i + 1)).contains(x));
                    assert(moves(nv, x, a@).contains(z1));
                }
            }
            assert(set_of(acc@) =~= now);
        }
        i = i + 1;
    }
    proof {
        assert(sv@.take(i as int) =~= sv@);
    }
    acc
}

/// All entries for key `k` lead to `v`, so the table does too.
proof fn lemma_table_uniform(ts: Seq<Transition>, k: (Seq<char>, Seq<char>), v: Seq<char>)
    requires
        forall|j: int| 0 <= j < ts.len() && key_of(#[trigger] ts[j]) == k ==> ts[j].to@ == v,
    ensures
        table(ts).contains_key(k) ==> table(ts)[k] == v,
    decreases ts.len(),
{
    if ts.len() > 0 {
        let t = ts.drop_last();
        assert forall|j: int| 0 <= j < t.len() && key_of(#[trigger] t[j]) == k implies t[j].to@ == v by {
            assert(t[j] == ts[j]);
        }
        lemma_table_uniform(t, k, v);
    }
}

/// Subsets of a finite set of member labels are finite sets of member labels.
proof fn lemma_subset_member(q: Set<Seq<char>>, s: Set<Seq<char>>)
    requires
        q.finite(),
        forall|x: Seq<char>| q.contains(x) ==> is_member_label(x),
        s.subset_of(q),
    ensures
        s.finite(),
        is_member_label(encode(s)),
{
    vstd::set_lib::lemma_len_subset(s, q);
    assert forall|x: Seq<char>| s.contains(x) implies crate::codec::is_nested_label(x) by {
        assert(q.contains(x));
        assert(is_member_label(x));
    }
    lemma_encode_member(s);
}

impl DeterministicFiniteAutomata {
    /// The subset construction: one state for each set of states of `n`,
    /// named by its composite name; from a set on a symbol, the set of
    /// states that its members move to, closed under empty-word moves; a set
    /// accepts when it holds an accept state; the start state is the closure
    /// of the start state of `n`.
    pub fn from_nfa(n: &NondeterministicFiniteAutomata) -> (r: Self)
        requires
            nfa_wf(n@),
            forall|q: Seq<char>| n@.states.contains(q) ==> is_member_label(q),
        ensures
            r@.alphabet == n@.alphabet,
            r@.states == subset_names(n@.states),
            r@.start == encode(eclose(n@, set![n@.start])),
            r@.accept == accepting_names(n@),
            forall|s: Set<Seq<char>>, a: Seq<char>| #[trigger] moves_like_subsets(r@, n@, s, a),
            forall|k: (Seq<char>, Seq<char>)| #[trigger] r@.delta.contains_key(k) ==> n@.alphabet.contains(k.1)
                && exists|s: Set<Seq<char>>| s.subset_of(n@.states) && k.0 == encode(s),
            dfa_wf(r@),
            forall|q: Seq<char>| r@.states.contains(q) ==> is_member_label(q),
            forall|w: Seq<Seq<char>>| crate::dfa::accepts(r@, w) == nfa_accepts(n@, w),
    {
        let ghost nv = n@;
        let qs = distinct_labels(&n.states);
        let syms = distinct_labels(&n.alphabet);
        let ghost sy = labels(syms@);
        proof {
            assert(qs@.skip(0) =~= qs@);
        }
        let subsets = all_subsets(&qs, 0);
        let mut states: Vec<String> = Vec::new();
        let mut accept_states: Vec<String> = Vec::new();
        let mut moves_out: Vec<Transition> = Vec::new();
        let ghost mut origin: Seq<(int, int)> = Seq::empty();
        let ghost sets = Seq::new(subsets.len() as nat, |j: int| set_of(subsets[j]@));
        let mut j: usize = 0;
        proof {
            assert(set_of(states@) =~= Set::empty());
            assert(set_of(accept_states@) =~= Set::empty());
        }
        while j < subsets.len()
            invariant
                nv == n@,
                nfa_wf(nv),
                set_of(qs@) == nv.states,
                sy == labels(syms@),
                set_of(syms@) == nv.alphabet,
                sets.len() == subsets.len(),
                forall|x: int| 0 <= x < subsets.len() ==> #[trigger] sets[x] == set_of(subsets[x]@),
                forall|x: int| 0 <= x < subsets.len() ==> set_of((#[trigger] subsets[x])@).subset_of(set_of(qs@)),
                j <= subsets.len(),
                forall|x: Seq<char>| #[trigger] set_of(states@).contains(x) <==> exists|y: int| 0 <= y < j && x == encode(#[trigger] sets[y]),
                forall|x: Seq<char>| #[trigger] set_of(accept_states@).contains(x) <==> exists|y: int| 0 <= y < j && x == encode(#[trigger] sets[y])
                    && exists|z: Seq<char>| sets[y].contains(z) && nv.accept.contains(z),
                origin.len() == moves_out.len(),
                forall|e: int| 0 <= e < moves_out.len() ==> {
                    let (y, b) = #[trigger] origin[e];
                    &&& 0 <= y < j && 0 <= b < sy.len()
                    &&& moves_out@[e].from@ == encode(sets[y]) && moves_out@[e].symbol@ == sy[b]
                    &&& moves_out@[e].to@ == encode(subset_step(nv, sets[y], sy[b]))
                },
                forall|y: int, b: int| 0 <= y < j && 0 <= b < sy.len() ==> #[trigger] covers(origin, y, b),
            decreases subsets.len() - j,
        {
            let name = set_to_state(&subsets[j]);
            let ghost before_states = states@;
            proof {
                lemma_set_of_push(states@, name);
            }
            states.push(name.clone());
            proof {
                assert forall|x: Seq<char>| #[trigger] set_of(states@).contains(x) <==> exists|y: int| 0 <= y < j + 1 && x == encode(#[trigger] sets[y]) by {
                    if x == name@ {
                        assert(encode(sets[j as int]) == x);
                    }
                }
            }
            let mut has_accept = false;
            let mut m: usize = 0;
            while m < subsets[j].len()
                invariant
                    j < subsets.len(),
                    m <= subsets[j as int].len(),
                    has_accept == exists|z: int| 0 <= z < m && set_of(n.accept_states@).contains(#[trigger] subsets[j as int]@[z]@),
                decreases subsets[j as int].len() - m,
            {
                if contains_label(&n.accept_states, subsets[j][m].as_str()) {
                    has_accept = true;
                }
                m = m + 1;
            }
            let ghost holds = exists|z: Seq<char>| sets[j as int].contains(z) && nv.accept.contains(z);
            proof {
                if has_accept {
                    let z = choose|z: int| 0 <= z < m && set_of(n.accept_states@).contains(#[trigger] subsets[j as int]@[z]@);
                    lemma_set_of_index(subsets[j as int]@, z);
                }
                if holds {
                    let z = choose|z: Seq<char>| sets[j as int].contains(z) && nv.accept.contains(z);
                    let k = choose|k: int| 0 <= k < labels(subsets[j as int]@).len() && labels(subsets[j as int]@)[k] == z;
                    assert(set_of(n.accept_states@).contains(subsets[j as int]@[k]@));
                }
                assert(has_accept == holds);
            }
            if has_accept {
                proof {
                    lemma_set_of_push(accept_states@, name);
                }
                accept_states.push(name.clone());
            }
            proof {
                assert forall|x: Seq<char>| #[trigger] set_of(accept_states@).contains(x) <==> exists|y: int| 0 <= y < j + 1 && x == encode(#[trigger] sets[y])
                    && exists|z: Seq<char>| sets[y].contains(z) && nv.accept.contains(z) by {
                    if x == name@ && holds {
                        assert(encode(sets[j as int]) == x);
                    }
                    if exists|y: int| 0 <= y < j + 1 && x == encode(#[trigger] sets[y]) && exists|z: Seq<char>| sets[y].contains(z) && nv.accept.contains(z) {
                        let y = choose|y: int| 0 <= y < j + 1 && x == encode(#[trigger] sets[y]) && exists|z: Seq<char>| sets[y].contains(z) && nv.accept.contains(z);
                        if y == j {
                            assert(has_accept);
                        }
                    }
                }
            }
            let mut a: usize = 0;
            while a < syms.len()
                invariant
                    nv == n@,
                    nfa_wf(nv),
                    set_of(qs@) == nv.states,
                    sy == labels(syms@),
                    sets.len() == subsets.len(),
                    forall|x: int| 0 <= x < subsets.len() ==> #[trigger] sets[x] == set_of(subsets[x]@),
                    forall|x: int| 0 <= x < subsets.len() ==> set_of((#[trigger] subsets[x])@).subset_of(set_of(qs@)),
                    j < subsets.len(),
                    name@ == encode(sets[j as int]),
                    a <= syms.len(),
                    origin.len() == moves_out.len(),
                    forall|e: int| 0 <= e < moves_out.len() ==> {
                        let (y, b) = #[trigger] origin[e];
                        &&& 0 <= y < j + 1 && 0 <= b < sy.len()
                        &&& moves_out@[e].from@ == encode(sets[y]) && moves_out@[e].symbol@ == sy[b]
                        &&& moves_out@[e].to@ == encode(subset_step(nv, sets[y], sy[b]))
                    },
                    forall|y: int, b: int| 0 <= y < j && 0 <= b < sy.len() ==> #[trigger] covers(origin, y, b),
                    forall|b: int| 0 <= b < a ==> #[trigger] covers(origin, j as int, b),
                decreases syms.len() - a,
            {
                let next = successor(n, &subsets[j], &syms[a]);
                let next_name = set_to_state(&next);
                let ghost before = origin;
                moves_out.push(Transition { from: name.clone(), symbol: syms[a].clone(), to: next_name });
                proof {
                    origin = origin.push((j as int, a as int));
                    assert forall|e: int| 0 <= e < origin.len() - 1 implies #[trigger] origin[e] == before[e] by {}
                    assert forall|y: int, b: int| 0 <= y < j && 0 <= b < sy.len() implies #[trigger] covers(origin, y, b) by {
                        assert(covers(before, y, b));
                        let e0 = choose|e: int| 0 <= e < before.len() && #[trigger] before[e] == (y, b);
                        assert(origin[e0] == before[e0]);
                    }
                    assert forall|b: int| 0 <= b < a + 1 implies #[trigger] covers(origin, j as int, b) by {
                        if b == a {
                            assert(origin[origin.len() - 1] == (j as int, b));
                        } else {
                            assert(covers(before, j as int, b));
                            let e0 = choose|e: int| 0 <= e < before.len() && #[trigger] before[e] == (j as int, b);
                            assert(origin[e0] == before[e0]);
                        }
                    }
                }
                a = a + 1;
            }
            j = j + 1;
        }
        let closure = n.epsilon_closure(&n.start_state);
        let start_name = set_to_state(&closure);
        let r = DeterministicFiniteAutomata {
            states,
            alphabet: copy_labels(&n.alphabet),
            transition_function: moves_out,
            start_state: start_name,
            accept_states,
        };
        proof {
            let q = nv.states;
            assert(q.finite()) by {
                labels(n.states@).lemma_cardinality_of_set();
            }
            assert forall|x: Seq<char>| r@.states.contains(x) <==> subset_names(q).contains(x) by {
                if r@.states.contains(x) {
                    let y = choose|y: int| 0 <= y < subsets.len() && x == encode(#[trigger] sets[y]);
                    assert(sets[y].subset_of(q));
                }
                if subset_names(q).contains(x) {
                    let s = choose|s: Set<Seq<char>>| s.subset_of(q) && x == encode(s);
                    let y = choose|y: int| 0 <= y < subsets.len() && set_of((#[trigger] subsets[y])@) == s;
                    assert(sets[y] == s);
                }
            }
            assert(r@.states =~= subset_names(q));
            assert forall|x: Seq<char>| r@.accept.contains(x) <==> accepting_names(nv).contains(x) by {
                if r@.accept.contains(x) {
                    let y = choose|y: int| 0 <= y < subsets.len() && x == encode(#[trigger] sets[y])
                        && exists|z: Seq<char>| sets[y].contains(z) && nv.accept.contains(z);
                    assert(sets[y].subset_of(q));
                }
                if accepting_names(nv).contains(x) {
                    let s = choose|s: Set<Seq<char>>|
                        s.subset_of(nv.states) && x == encode(s) && exists|z: Seq<char>| s.contains(z) && nv.accept.contains(z);
                    let y = choose|y: int| 0 <= y < subsets.len() && set_of((#[trigger] subsets[y])@) == s;
                    assert(sets[y] == s);
                }
            }
            assert(r@.accept =~= accepting_names(nv));
            let mv = r.transition_function@;
            // Entries with equal keys come from equal sets.
            assert forall|s: Set<Seq<char>>, a: Seq<char>| #[trigger] moves_like_subsets(r@, nv, s, a) by {
              if s.subset_of(q) && nv.alphabet.contains(a) {
                let y = choose|y: int| 0 <= y < subsets.len() && set_of((#[trigger] subsets[y])@) == s;
                let b = choose|b: int| 0 <= b < labels(syms@).len() && labels(syms@)[b] == a;
                assert(covers(origin, y, b));
                let e = choose|e: int| 0 <= e < origin.len() && #[trigger] origin[e] == (y, b);
                crate::dfa::lemma_table_entry(mv, e);
                assert forall|e2: int| 0 <= e2 < mv.len() && key_of(#[trigger] mv[e2]) == (encode(s), a) implies mv[e2].to@ == encode(subset_step(nv, s, a)) by {
                    let (y2, b2) = origin[e2];
                    lemma_subset_member(q, s);
                    lemma_subset_member(q, sets[y2]);
                    lemma_encode_injective(s, sets[y2]);
                }
                lemma_table_uniform(mv, (encode(s), a), encode(subset_step(nv, s, a)));
              }
            }
            assert forall|k: (Seq<char>, Seq<char>)| #[trigger] r@.delta.contains_key(k) implies nv.alphabet.contains(k.1)
                && exists|s: Set<Seq<char>>| s.subset_of(q) && k.0 == encode(s) by {
                lemma_table_key(mv, k);
                let e = choose|e: int| 0 <= e < mv.len() && key_of(#[trigger] mv[e]) == k;
                let (y, b) = origin[e];
                assert(sets[y].subset_of(q));
                lemma_set_of_index(syms@, b);
            }
            // Well-formedness.
            let c = eclose(nv, set![nv.start]);
            lemma_eclose_in_states(nv, nv.start);
            assert(subset_names(q).contains(encode(c)));
            assert forall|k: (Seq<char>, Seq<char>)| #[trigger] r@.delta.contains_key(k) implies r@.states.contains(k.0)
                && r@.alphabet.contains(k.1) && r@.states.contains(r@.delta[k]) by {
                let s = choose|s: Set<Seq<char>>| s.subset_of(q) && k.0 == encode(s);
                assert(moves_like_subsets(r@, nv, s, k.1));
                assert(subset_step(nv, s, k.1).subset_of(q)) by {
                    assert forall|y: Seq<char>| subset_step(nv, s, k.1).contains(y) implies q.contains(y) by {
                        let (x, z) = choose|x: Seq<char>, z: Seq<char>|
                            s.contains(x) && #[trigger] moves(nv, x, k.1).contains(z) && #[trigger] eclose(nv, set![z]).contains(y);
                        assert(nv.delta.contains_key((x, k.1)));
                        lemma_eclose_in_states(nv, z);
                    }
                }
            }
            assert forall|x: Seq<char>| r@.accept.contains(x) implies r@.states.contains(x) by {
                let s = choose|s: Set<Seq<char>>|
                    s.subset_of(nv.states) && x == encode(s) && exists|z: Seq<char>| s.contains(z) && nv.accept.contains(z);
            }
            assert forall|x: Seq<char>| r@.states.contains(x) implies is_member_label(x) by {
                let s = choose|s: Set<Seq<char>>| s.subset_of(q) && x == encode(s);
                lemma_subset_member(q, s);
            }
            assert forall|w: Seq<Seq<char>>| crate::dfa::accepts(r@, w) == nfa_accepts(nv, w) by {
                assert(q.finite());
                lemma_subset_language(r@, nv, w);
            }
        }
        r
    }
}

/// The sets of states reached by reading `w` from the set `s`.
pub open spec fn simulate(n: NfaView, s: Set<Seq<char>>, w: Seq<Seq<char>>) -> Set<Seq<char>>
    decreases w.len(),
{
    if w.len() == 0 {
        s
    } else {
        simulate(n, subset_step(n, s, w[0]), w.drop_first())
    }
}

/// Whether the automaton accepts `w`: every symbol is in the alphabet, and
/// reading `w` from the closure of the start state reaches an accept state.
pub open spec fn nfa_accepts(n: NfaView, w: Seq<Seq<char>>) -> bool {
    &&& forall|i: int| 0 <= i < w.len() ==> n.alphabet.contains(#[trigger] w[i])
    &&& exists|q: Seq<char>| simulate(n, eclose(n, set![n.start]), w).contains(q) && n.accept.contains(q)
}

impl NondeterministicFiniteAutomata {
    /// Whether the automaton accepts `input`, each character being one
    /// symbol: the set of current states starts as the empty-word closure of
    /// the start state and follows every move on each symbol, then its
    /// closure.
    pub fn compute(&self, input: &str) -> (r: bool)
        requires
            nfa_wf(self@),
        ensures
            r == nfa_accepts(self@, crate::dfa::word(input@)),
    {
        let ghost nv = self@;
        let ghost w = crate::dfa::word(input@);
        let n = input.unicode_len();
        let mut current = self.epsilon_closure(&self.start_state);
        let ghost first = eclose(nv, set![nv.start]);
        let mut i: usize = 0;
        proof {
            assert(w.skip(0) =~= w);
        }
        while i < n
            invariant
                nv == self@,
                nfa_wf(nv),
                w == crate::dfa::word(input@),
                n == input@.len(),
                i <= n,
                set_of(current@).subset_of(nv.states),
                simulate(nv, first, w) == simulate(nv, set_of(current@), w.skip(i as int)),
                forall|j: int| 0 <= j < i ==> nv.alphabet.contains(#[trigger] w[j]),
            decreases n - i,
        {
            let a = String::from_str(input.substring_char(i, i + 1));
            proof {
                assert(a@ =~= seq![input@[i as int]]);
                assert(w.skip(i as int)[0] == a@);
                assert(w.skip(i as int).drop_first() =~= w.skip(i + 1));
            }
            if !contains_label(&self.alphabet, a.as_str()) {
                proof {
                    assert(w[i as int] == a@);
                }
                return false;
            }
            let next = successor(self, &current, &a);
            proof {
                assert forall|y: Seq<char>| subset_step(nv, set_of(current@), a@).contains(y) implies nv.states.contains(y) by {
                    let (x, z) = choose|x: Seq<char>, z: Seq<char>|
                        set_of(current@).contains(x) && #[trigger] moves(nv, x, a@).contains(z) && #[trigger] eclose(nv, set![z]).contains(y);
                    assert(nv.delta.contains_key((x, a@)));
                    lemma_eclose_in_states(nv, z);
                }
            }
            current = next;
            i = i + 1;
        }
        proof {
            assert(w.skip(i as int) =~= Seq::<Seq<char>>::empty());
            assert(first == eclose(nv, set![nv.start]));
        }
        let mut k: usize = 0;
        while k < current.len()
            invariant
                nv == self@,
                w == crate::dfa::word(input@),
                first == eclose(nv, set![nv.start]),
                simulate(nv, first, w) == set_of(current@),
                forall|j: int| 0 <= j < w.len() ==> nv.alphabet.contains(#[trigger] w[j]),
                k <= current.len(),
                forall|j: int| 0 <= j < k ==> !set_of(self.accept_states@).contains(#[trigger] current@[j]@),
            decreases current.len() - k,
        {
            if contains_label(&self.accept_states, current[k].as_str()) {
                proof {
                    lemma_set_of_index(current@, k as int);
                    let q = current@[k as int]@;
                    assert(simulate(nv, eclose(nv, set![nv.start]), w).contains(q) && nv.accept.contains(q));
                }
                return true;
            }
            k = k + 1;
        }
        proof {
            if exists|q: Seq<char>| set_of(current@).contains(q) && nv.accept.contains(q) {
                let q = choose|q: Seq<char>| set_of(current@).contains(q) && nv.accept.contains(q);
                let j = choose|j: int| 0 <= j < labels(current@).len() && labels(current@)[j] == q;
                assert(current@[j]@ == q);
            }
        }
        false
    }
}

/// One step of the simulation stays among the states.
proof fn lemma_step_in_states(n: NfaView, s: Set<Seq<char>>, a: Seq<char>)
    requires
        nfa_wf(n),
        s.subset_of(n.states),
    ensures
        subset_step(n, s, a).subset_of(n.states),
{
    assert forall|y: Seq<char>| subset_step(n, s, a).contains(y) implies n.states.contains(y) by {
        let (x, z) = choose|x: Seq<char>, z: Seq<char>|
            s.contains(x) && #[trigger] moves(n, x, a).contains(z) && #[trigger] eclose(n, set![z]).contains(y);
        assert(n.delta.contains_key((x, a)));
        lemma_eclose_in_states(n, z);
    }
}

/// The simulation stays among the states.
proof fn lemma_simulate_in_states(n: NfaView, s: Set<Seq<char>>, w: Seq<Seq<char>>)
    requires
        nfa_wf(n),
        s.subset_of(n.states),
    ensures
        simulate(n, s, w).subset_of(n.states),
    decreases w.len(),
{
    if w.len() > 0 {
        lemma_step_in_states(n, s, w[0]);
        lemma_simulate_in_states(n, subset_step(n, s, w[0]), w.drop_first());
    }
}

/// The subset automaton of `n` reads a word from the name of a set of states
/// to the name of the set that the simulation reaches, as long as every
/// symbol is in the alphabet, and fails otherwise.
proof fn lemma_subset_run(d: crate::dfa::DfaView, n: NfaView, s: Set<Seq<char>>, w: Seq<Seq<char>>)
    requires
        nfa_wf(n),
        s.subset_of(n.states),
        forall|s: Set<Seq<char>>, a: Seq<char>| #[trigger] moves_like_subsets(d, n, s, a),
        forall|k: (Seq<char>, Seq<char>)| #[trigger] d.delta.contains_key(k) ==> n.alphabet.contains(k.1),
    ensures
        (forall|i: int| 0 <= i < w.len() ==> n.alphabet.contains(#[trigger] w[i])) ==> crate::dfa::run(d.delta, encode(s), w)
            == Some(encode(simulate(n, s, w))),
        !(forall|i: int| 0 <= i < w.len() ==> n.alphabet.contains(#[trigger] w[i])) ==> crate::dfa::run(d.delta, encode(s), w)
            is None,
    decreases w.len(),
{
    if w.len() > 0 {
        let a = w[0];
        let t = subset_step(n, s, a);
        assert(moves_like_subsets(d, n, s, a));
        lemma_step_in_states(n, s, a);
        lemma_subset_run(d, n, t, w.drop_first());
        if n.alphabet.contains(a) {
            assert forall|i: int| 0 <= i < w.drop_first().len() implies (n.alphabet.contains(#[trigger] w.drop_first()[i])
                <==> n.alphabet.contains(w[i + 1])) by {}
            if !(forall|i: int| 0 <= i < w.len() ==> n.alphabet.contains(#[trigger] w[i])) {
                let i = choose|i: int| 0 <= i < w.len() && !n.alphabet.contains(#[trigger] w[i]);
                assert(!n.alphabet.contains(w.drop_first()[i - 1]));
            }
        } else {
            assert(!d.delta.contains_key((encode(s), a)));
        }
    }
}

/// The subset automaton of `n` accepts exactly the words that the
/// simulation of `n` with empty-word closure accepts.
pub proof fn lemma_subset_language(d: crate::dfa::DfaView, n: NfaView, w: Seq<Seq<char>>)
    requires
        nfa_wf(n),
        n.states.finite(),
        forall|q: Seq<char>| n.states.contains(q) ==> is_member_label(q),
        d.start == encode(eclose(n, set![n.start])),
        d.accept == accepting_names(n),
        forall|s: Set<Seq<char>>, a: Seq<char>| #[trigger] moves_like_subsets(d, n, s, a),
        forall|k: (Seq<char>, Seq<char>)| #[trigger] d.delta.contains_key(k) ==> n.alphabet.contains(k.1)
            && exists|s: Set<Seq<char>>| s.subset_of(n.states) && k.0 == encode(s),
    ensures
        crate::dfa::accepts(d, w) == nfa_accepts(n, w),
{
    let s0 = eclose(n, set![n.start]);
    lemma_eclose_in_states(n, n.start);
    lemma_subset_run(d, n, s0, w);
    let q = n.states;
    if forall|i: int| 0 <= i < w.len() ==> n.alphabet.contains(#[trigger] w[i]) {
        let t = simulate(n, s0, w);
        lemma_simulate_in_states(n, s0, w);
        if d.accept.contains(encode(t)) {
            let s = choose|s: Set<Seq<char>>|
                s.subset_of(n.states) && encode(t) == encode(s) && exists|y: Seq<char>| s.contains(y) && n.accept.contains(y);
            lemma_subset_member(q, s);
            lemma_subset_member(q, t);
            lemma_encode_injective(s, t);
        }
        if exists|y: Seq<char>| t.contains(y) && n.accept.contains(y) {
            assert(accepting_names(n).contains(encode(t)));
        }
    }
}

} // verus!
