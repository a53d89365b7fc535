//! Nondeterministic finite automata with empty-word moves.
use vstd::prelude::*;
use crate::codec::{labels, str_eq};
use crate::collection::{
    add_label, concat_labels, contains_label, copy_labels, distinct_labels, lemma_distinct_bounded,
    lemma_set_of_index, lemma_set_of_push, remove_label, set_of,
};
use crate::names::fresh_label;
use crate::dfa::{find_transition, table, DeterministicFiniteAutomata, DfaView};

verus! {

/// The label of the empty word.
pub open spec fn eps() -> Seq<char> {
    seq!['&']
}

/// One entry of a nondeterministic transition table: from `from`, reading
/// `symbol` (or the empty word `&`), the automaton may move to any of `to`.
pub struct NfaTransition {
    pub from: String,
    pub symbol: String,
    pub to: Vec<String>,
}

/// A nondeterministic finite automaton over string labels.
pub struct NondeterministicFiniteAutomata {
    pub states: Vec<String>,
    pub alphabet: Vec<String>,
    pub start_state: String,
    pub transition_function: Vec<NfaTransition>,
    pub accept_states: Vec<String>,
}

/// The mathematical content of a nondeterministic automaton.
pub struct NfaView {
    pub states: Set<Seq<char>>,
    pub alphabet: Set<Seq<char>>,
    pub delta: Map<(Seq<char>, Seq<char>), Set<Seq<char>>>,
    pub start: Seq<char>,
    pub accept: Set<Seq<char>>,
}

pub open spec fn nkey_of(t: NfaTransition) -> (Seq<char>, Seq<char>) {
    (t.from@, t.symbol@)
}

/// The relation that a list of entries describes; a later entry for the
/// same state and symbol replaces an earlier one.
pub open spec fn ntable(ts: Seq<NfaTransition>) -> Map<(Seq<char>, Seq<char>), Set<Seq<char>>>
    decreases ts.len(),
{
    if ts.len() == 0 {
        Map::empty()
    } else {
        ntable(ts.drop_last()).insert(nkey_of(ts.last()), set_of(ts.last().to@))
    }
}

impl View for NondeterministicFiniteAutomata {
    type V = NfaView;

    open spec fn view(&self) -> NfaView {
        NfaView {
            states: set_of(self.states@),
            alphabet: set_of(self.alphabet@),
            delta: ntable(self.transition_function@),
            start: self.start_state@,
            accept: set_of(self.accept_states@),
        }
    }
}

/// The states reachable from `x` on `a` in one move (none where there is no entry).
pub open spec fn moves(n: NfaView, x: Seq<char>, a: Seq<char>) -> Set<Seq<char>> {
    if n.delta.contains_key((x, a)) {
        n.delta[(x, a)]
    } else {
        Set::empty()
    }
}

/// A path of empty-word moves.
pub open spec fn eps_path(n: NfaView, p: Seq<Seq<char>>) -> bool {
    &&& p.len() >= 1
    &&& forall|i: int| 0 <= i < p.len() - 1 ==> moves(n, #[trigger] p[i], eps()).contains(p[i + 1])
}

/// The states reachable from `s` by empty-word moves alone.
pub open spec fn eclose(n: NfaView, s: Set<Seq<char>>) -> Set<Seq<char>> {
    Set::new(|y: Seq<char>| exists|p: Seq<Seq<char>>| #[trigger] eps_path(n, p) && s.contains(p[0]) && p.last() == y)
}

/// The invariant of a nondeterministic automaton: the start state and the
/// accept states are states, and every entry leads from a state, on a symbol
/// of the alphabet or the empty word, to states.
pub open spec fn nfa_wf(n: NfaView) -> bool {
    &&& n.states.contains(n.start)
    &&& n.accept.subset_of(n.states)
    &&& forall|k: (Seq<char>, Seq<char>)|
        #[trigger] n.delta.contains_key(k) ==> n.states.contains(k.0) && (n.alphabet.contains(k.1) || k.1 == eps())
            && n.delta[k].subset_of(n.states)
}

pub proof fn lemma_ntable_suffix(ts: Seq<NfaTransition>, i: int, k: (Seq<char>, Seq<char>))
    requires
        0 <= i <= ts.len(),
        forall|j: int| i <= j < ts.len() ==> nkey_of(#[trigger] ts[j]) != k,
    ensures
        ntable(ts).contains_key(k) == ntable(ts.take(i)).contains_key(k),
        ntable(ts).contains_key(k) ==> ntable(ts)[k] == ntable(ts.take(i))[k],
    decreases ts.len() - i,
{
    if i == ts.len() {
        assert(ts.take(i) =~= ts);
    } else {
        let t = ts.drop_last();
        assert(nkey_of(ts[ts.len() - 1]) != k);
        assert forall|j: int| i <= j < t.len() implies nkey_of(#[trigger] t[j]) != k by {
            assert(t[j] == ts[j]);
        }
        lemma_ntable_suffix(t, i, k);
        assert(t.take(i) =~= ts.take(i));
    }
}

/// The index of the entry that gives the moves from `q` on `a`, if any.
pub fn find_moves(ts: &Vec<NfaTransition>, q: &str, a: &str) -> (r: Option<usize>)
    ensures
        match r {
            Some(i) => i < ts.len() && ntable(ts@).contains_key((q@, a@)) && ntable(ts@)[(q@, a@)]
                == set_of(ts@[i as int].to@),
            None => !ntable(ts@).contains_key((q@, a@)),
        },
{
    let ghost k = (q@, a@);
    let mut i: usize = ts.len();
    while i > 0
        invariant
            k == (q@, a@),
            i <= ts.len(),
            forall|j: int| i <= j < ts.len() ==> nkey_of(#[trigger] ts@[j]) != k,
        decreases i,
    {
        let same_from = str_eq(ts[i - 1].from.as_str(), q);
        let same_symbol = str_eq(ts[i - 1].symbol.as_str(), a);
        if same_from && same_symbol {
            proof {
                assert(nkey_of(ts@[i - 1]) == k);
                lemma_ntable_suffix(ts@, i as int, k);
                let p = ts@.take(i as int);
                assert(p.drop_last() =~= ts@.take(i - 1));
                assert(p.last() == ts@[i - 1]);
                assert(ntable(p) == ntable(p.drop_last()).insert(nkey_of(p.last()), set_of(p.last().to@)));
            }
            return Some(i - 1);
        }
        proof {
            assert(nkey_of(ts@[i - 1]) != k);
        }
        i = i - 1;
    }
    proof {
        lemma_ntable_suffix(ts@, 0, k);
        assert(ts@.take(0) =~= Seq::<NfaTransition>::empty());
    }
    None
}

/// The string `&`, the label of the empty word.
pub fn epsilon_label() -> (r: String)
    ensures
        r@ == eps(),
{
    proof {
        reveal_strlit("&");
    }
    String::from_str("&")
}

impl NondeterministicFiniteAutomata {
    /// The automaton with no states, no symbols, no transitions and an empty start label.
    pub fn new() -> (r: Self)
        ensures
            r@.states.is_empty(),
            r@.alphabet.is_empty(),
            r@.delta.is_empty(),
            r@.start.len() == 0,
            r@.accept.is_empty(),
    {
        let r = NondeterministicFiniteAutomata {
            states: Vec::new(),
            alphabet: Vec::new(),
            start_state: String::new(),
            transition_function: Vec::new(),
            accept_states: Vec::new(),
        };
        proof {
            assert(set_of(r.states@) =~= Set::empty());
            assert(set_of(r.alphabet@) =~= Set::empty());
            assert(set_of(r.accept_states@) =~= Set::empty());
            assert(ntable(r.transition_function@) =~= Map::empty());
        }
        r
    }

    /// The states reachable from `state` by empty-word moves, `state` included.
    pub fn epsilon_closure(&self, state: &String) -> (r: Vec<String>)
        requires
            nfa_wf(self@),
            self@.states.contains(state@),
        ensures
            set_of(r@) == eclose(self@, set![state@]),
            set_of(r@).subset_of(self@.states),
    {
        let ghost n = self@;
        let ghost universe = labels(self.states@);
        let amp = epsilon_label();
        let ts = &self.transition_function;
        let mut found: Vec<String> = Vec::new();
        found.push(state.clone());
        proof {
            assert(labels(found@) =~= seq![state@]);
            let p = seq![state@];
            assert(eps_path(n, p));
            assert(eclose(n, set![state@]).contains(state@));
            lemma_set_of_index(found@, 0);
        }
        let mut i: usize = 0;
        while i < found.len()
            invariant
                n == self@,
                nfa_wf(n),
                n.delta == ntable(ts@),
                amp@ == eps(),
                universe == labels(self.states@),
                i <= found.len(),
                found.len() > 0,
                found@[0]@ == state@,
                labels(found@).no_duplicates(),
                labels(found@).to_set().subset_of(universe.to_set()),
                forall|k: int| 0 <= k < found.len() ==> #[trigger] eclose(n, set![state@]).contains(found@[k]@),
                forall|k: int, y: Seq<char>|
                    0 <= k < i && #[trigger] moves(n, found@[k]@, eps()).contains(y) ==> set_of(found@).contains(y),
            decreases universe.len() - i,
        {
            proof {
                lemma_distinct_bounded(labels(found@), universe);
            }
            match find_moves(ts, found[i].as_str(), amp.as_str()) {
                Some(m) => {
                    let ghost x = found@[i as int]@;
                    let mut j: usize = 0;
                    while j < ts[m].to.len()
                        invariant
                            n == self@,
                            nfa_wf(n),
                            n.delta == ntable(ts@),
                            universe == labels(self.states@),
                            m < ts.len(),
                            i < found.len(),
                            x == found@[i as int]@,
                            n.delta.contains_key((x, eps())),
                            n.delta[(x, eps())] == set_of(ts@[m as int].to@),
                            j <= ts@[m as int].to.len(),
                            found@[0]@ == state@,
                            labels(found@).no_duplicates(),
                            labels(found@).to_set().subset_of(universe.to_set()),
                            forall|k: int| 0 <= k < found.len() ==> #[trigger] eclose(n, set![state@]).contains(found@[k]@),
                            forall|k: int, y: Seq<char>|
                                0 <= k < i && #[trigger] moves(n, found@[k]@, eps()).contains(y) ==> set_of(found@).contains(y),
                            forall|l: int| 0 <= l < j ==> set_of(found@).contains(#[trigger] ts@[m as int].to@[l]@),
                        decreases ts@[m as int].to.len() - j,
                    {
                        let y = ts[m].to[j].clone();
                        let ghost before = found@;
                        proof {
                            lemma_set_of_index(ts@[m as int].to@, j as int);
                            assert(moves(n, x, eps()).contains(y@));
                        }
                        if !contains_label(&found, y.as_str()) {
                            proof {
                                assert(eclose(n, set![state@]).contains(x));
                                let p = choose|p: Seq<Seq<char>>| #[trigger] eps_path(n, p) && set![state@].contains(p[0]) && p.last() == x;
                                let p2 = p.push(y@);
                                assert forall|t: int| 0 <= t < p2.len() - 1 implies moves(n, #[trigger] p2[t], eps()).contains(p2[t + 1]) by {
                                    if t < p.len() - 1 {
                                        assert(p2[t] == p[t] && p2[t + 1] == p[t + 1]);
                                    }
                                }
                                assert(eps_path(n, p2));
                                assert(eclose(n, set![state@]).contains(y@));
                                assert(n.delta[(x, eps())].subset_of(n.states));
                                assert(universe.to_set().contains(y@));
                                lemma_set_of_push(found@, y);
                            }
                            found.push(y);
                            proof {
                                assert(labels(found@) =~= labels(before).push(found@[before.len() as int]@));
                                assert forall|k: int| 0 <= k < found.len() implies #[trigger] eclose(n, set![state@]).contains(found@[k]@) by {
                                    if k < before.len() {
                                        assert(found@[k] == before[k]);
                                    }
                                }
                                assert forall|z: Seq<char>| labels(found@).to_set().contains(z) implies universe.to_set().contains(z) by {
                                    if z != found@[before.len() as int]@ {
                                        assert(set_of(before).contains(z));
                                    }
                                }
                            }
                        }
                        j = j + 1;
                    }
                    proof {
                        assert forall|y: Seq<char>| #[trigger] moves(n, x, eps()).contains(y) implies set_of(found@).contains(y) by {
                            let l = choose|l: int| 0 <= l < labels(ts@[m as int].to@).len() && labels(ts@[m as int].to@)[l] == y;
                            assert(ts@[m as int].to@[l]@ == y);
                        }
                    }
                },
                None => {},
            }
            i = i + 1;
        }
        proof {
            let c = eclose(n, set![state@]);
            assert forall|x: Seq<char>, y: Seq<char>| set_of(found@).contains(x) && #[trigger] moves(n, x, eps()).contains(y) implies set_of(found@).contains(y) by {
                let k = choose|k: int| 0 <= k < labels(found@).len() && labels(found@)[k] == x;
                assert(moves(n, found@[k]@, eps()).contains(y));
            }
            assert forall|y: Seq<char>| c.contains(y) <==> set_of(found@).contains(y) by {
                if c.contains(y) {
                    let p = choose|p: Seq<Seq<char>>| #[trigger] eps_path(n, p) && set![state@].contains(p[0]) && p.last() == y;
                    lemma_set_of_index(found@, 0);
                    lemma_path_in_closed(n, set_of(found@), p, p.len() - 1);
                }
                if set_of(found@).contains(y) {
                    let k = choose|k: int| 0 <= k < labels(found@).len() && labels(found@)[k] == y;
                    assert(c.contains(found@[k]@));
                }
            }
            assert(c =~= set_of(found@));
        }
        found
    }
}

/// A set that holds the first state of an empty-word path and is closed
/// under empty-word moves holds every state on the path.
pub proof fn lemma_path_in_closed(n: NfaView, s: Set<Seq<char>>, p: Seq<Seq<char>>, i: int)
    requires
        eps_path(n, p),
        s.contains(p[0]),
        0 <= i < p.len(),
        forall|x: Seq<char>, y: Seq<char>| s.contains(x) && #[trigger] moves(n, x, eps()).contains(y) ==> s.contains(y),
    ensures
        s.contains(p[i]),
    decreases i,
{
    if i > 0 {
        lemma_path_in_closed(n, s, p, i - 1);
        assert(moves(n, p[i - 1], eps()).contains(p[i]));
    }
}

/// The relation of a deterministic automaton, each move a one-element set.
pub open spec fn singleton_moves(d: DfaView) -> Map<(Seq<char>, Seq<char>), Set<Seq<char>>> {
    Map::new(
        |k: (Seq<char>, Seq<char>)| d.delta.contains_key(k) && d.states.contains(k.0) && d.alphabet.contains(k.1),
        |k: (Seq<char>, Seq<char>)| set![d.delta[k]],
    )
}

proof fn lemma_ntable_push(ts: Seq<NfaTransition>, t: NfaTransition)
    ensures
        ntable(ts.push(t)) == ntable(ts).insert(nkey_of(t), set_of(t.to@)),
{
    assert(ts.push(t).drop_last() =~= ts);
}

impl NondeterministicFiniteAutomata {
    /// The deterministic automaton read as a nondeterministic one: each move
    /// from a state on a symbol of the alphabet becomes a one-element set.
    pub fn from_dfa(d: &DeterministicFiniteAutomata) -> (r: Self)
        ensures
            r@.states == d@.states,
            r@.alphabet == d@.alphabet,
            r@.start == d@.start,
            r@.accept == d@.accept,
            r@.delta == singleton_moves(d@),
            crate::dfa::dfa_wf(d@) ==> nfa_wf(r@),
    {
        let qs = distinct_labels(&d.states);
        let syms = distinct_labels(&d.alphabet);
        let ghost m = singleton_moves(d@);
        let ghost mut done: Set<(Seq<char>, Seq<char>)> = Set::empty();
        let mut out: Vec<NfaTransition> = Vec::new();
        proof {
            assert(ntable(out@) =~= Map::new(|k: (Seq<char>, Seq<char>)| m.contains_key(k) && done.contains(k), |k| m[k]));
        }
        let mut i: usize = 0;
        while i < qs.len()
            invariant
                m == singleton_moves(d@),
                set_of(qs@) == d@.states,
                set_of(syms@) == d@.alphabet,
                labels(qs@).no_duplicates(),
                labels(syms@).no_duplicates(),
                i <= qs.len(),
                ntable(out@) == Map::new(|k: (Seq<char>, Seq<char>)| m.contains_key(k) && done.contains(k), |k| m[k]),
                forall|x: int, b: int| 0 <= x < i && 0 <= b < syms.len() ==> done.contains((#[trigger] qs@[x]@, #[trigger] syms@[b]@)),
            decreases qs.len() - i,
        {
            let mut a: usize = 0;
            while a < syms.len()
                invariant
                    m == singleton_moves(d@),
                    set_of(qs@) == d@.states,
                    set_of(syms@) == d@.alphabet,
                    i < qs.len(),
                    a <= syms.len(),
                    ntable(out@) == Map::new(|k: (Seq<char>, Seq<char>)| m.contains_key(k) && done.contains(k), |k| m[k]),
                    forall|x: int, b: int| 0 <= x < i && 0 <= b < syms.len() ==> done.contains((#[trigger] qs@[x]@, #[trigger] syms@[b]@)),
                    forall|b: int| 0 <= b < a ==> done.contains((qs@[i as int]@, #[trigger] syms@[b]@)),
                decreases syms.len() - a,
            {
                let ghost k = (qs@[i as int]@, syms@[a as int]@);
                proof {
                    lemma_set_of_index(qs@, i as int);
                    lemma_set_of_index(syms@, a as int);
                }
                match find_transition(&d.transition_function, qs[i].as_str(), syms[a].as_str()) {
                    Some(j) => {
                        let mut to: Vec<String> = Vec::new();
                        to.push(d.transition_function[j].to.clone());
                        let t = NfaTransition { from: qs[i].clone(), symbol: syms[a].clone(), to };
                        proof {
                            crate::codec::lemma_push_to_set(Seq::<Seq<char>>::empty(), d.transition_function@[j as int].to@);
                            assert(labels(t.to@) =~= Seq::<Seq<char>>::empty().push(d.transition_function@[j as int].to@));
                            assert(Seq::<Seq<char>>::empty().to_set() =~= Set::empty());
                            assert(set_of(t.to@) =~= set![d.transition_function@[j as int].to@]);
                            lemma_ntable_push(out@, t);
                        }
                        out.push(t);
                        proof {
                            done = done.insert(k);
                            assert(ntable(out@) =~= Map::new(|k: (Seq<char>, Seq<char>)| m.contains_key(k) && done.contains(k), |k| m[k]));
                        }
                    },
                    None => {
                        proof {
                            done = done.insert(k);
                            assert(ntable(out@) =~= Map::new(|k: (Seq<char>, Seq<char>)| m.contains_key(k) && done.contains(k), |k| m[k]));
                        }
                    },
                }
                a = a + 1;
            }
            i = i + 1;
        }
        proof {
            assert(ntable(out@) =~= m) by {
                assert forall|k: (Seq<char>, Seq<char>)| m.contains_key(k) implies done.contains(k) by {
                    let x = choose|x: int| 0 <= x < labels(qs@).len() && labels(qs@)[x] == k.0;
                    let b = choose|b: int| 0 <= b < labels(syms@).len() && labels(syms@)[b] == k.1;
                    assert(done.contains((qs@[x]@, syms@[b]@)));
                }
            }
        }
        let r = NondeterministicFiniteAutomata {
            states: copy_labels(&d.states),
            alphabet: copy_labels(&d.alphabet),
            start_state: d.start_state.clone(),
            transition_function: out,
            accept_states: copy_labels(&d.accept_states),
        };
        proof {
            if crate::dfa::dfa_wf(d@) {
                assert forall|k: (Seq<char>, Seq<char>)| #[trigger] r@.delta.contains_key(k) implies r@.states.contains(k.0)
                    && (r@.alphabet.contains(k.1) || k.1 == eps()) && r@.delta[k].subset_of(r@.states) by {
                    assert(d@.delta.contains_key(k));
                }
            }
        }
        r
    }
}

/// The moves of the union from a state other than its new start state.
pub open spec fn union_moves(n: NfaView, m: NfaView, q: Seq<char>, a: Seq<char>) -> Set<Seq<char>> {
    moves(n, q, a).union(moves(m, q, a))
}

/// The targets of the entry for `q` and `a`, or none.
fn targets_of(ts: &Vec<NfaTransition>, q: &str, a: &str) -> (r: Vec<String>)
    ensures
        set_of(r@) == (if ntable(ts@).contains_key((q@, a@)) {
            ntable(ts@)[(q@, a@)]
        } else {
            Set::empty()
        }),
{
    match find_moves(ts, q, a) {
        Some(j) => copy_labels(&ts[j].to),
        None => {
            let r: Vec<String> = Vec::new();
            proof {
                assert(set_of(r@) =~= Set::empty());
            }
            r
        },
    }
}

impl NondeterministicFiniteAutomata {
    /// The union of two automata: their states and a new start state with
    /// empty-word moves to both start states; from every other state the
    /// moves of both automata on each symbol and on the empty word; the
    /// accept states of both.
    pub fn union(&self, other: &Self) -> (r: Self)
        requires
            nfa_wf(self@),
            nfa_wf(other@),
        ensures
            !self@.states.contains(r@.start),
            !other@.states.contains(r@.start),
            r@.states == self@.states.union(other@.states).insert(r@.start),
            r@.alphabet == self@.alphabet.union(other@.alphabet),
            r@.accept == self@.accept.union(other@.accept),
            moves(r@, r@.start, eps()) == set![self@.start, other@.start],
            forall|a: Seq<char>| a != eps() ==> #[trigger] moves(r@, r@.start, a) == Set::<Seq<char>>::empty(),
            forall|q: Seq<char>, a: Seq<char>|
                q != r@.start ==> #[trigger] moves(r@, q, a) == union_moves(self@, other@, q, a),
            nfa_wf(r@),
            r@.start.len() > 0,
            crate::codec::is_plain(r@.start),
    {
        let all_states = concat_labels(&self.states, &other.states);
        let qs = distinct_labels(&all_states);
        let all_symbols = concat_labels(&self.alphabet, &other.alphabet);
        let mut syms = distinct_labels(&all_symbols);
        add_label(&mut syms, epsilon_label());
        let fresh = fresh_label(&qs);
        let ghost n1 = self@;
        let ghost n2 = other@;
        let ghost f = fresh@;
        let ghost fk = (fresh@, eps());
        let ghost starts = set![self@.start, other@.start];
        let ghost m = Map::new(
            |k: (Seq<char>, Seq<char>)| true,
            |k: (Seq<char>, Seq<char>)| if k == fk { starts } else { union_moves(n1, n2, k.0, k.1) },
        );
        let mut to: Vec<String> = Vec::new();
        to.push(self.start_state.clone());
        to.push(other.start_state.clone());
        let t0 = NfaTransition { from: fresh.clone(), symbol: epsilon_label(), to };
        proof {
            assert(labels(t0.to@) =~= seq![self@.start, other@.start]);
            assert forall|x: Seq<char>| set_of(t0.to@).contains(x) <==> starts.contains(x) by {
                if x == self@.start {
                    assert(labels(t0.to@)[0] == x);
                }
                if x == other@.start {
                    assert(labels(t0.to@)[1] == x);
                }
            }
            assert(set_of(t0.to@) =~= starts);
        }
        let mut out: Vec<NfaTransition> = Vec::new();
        out.push(t0);
        let ghost mut done: Set<(Seq<char>, Seq<char>)> = set![fk];
        proof {
            assert(out@ =~= Seq::<NfaTransition>::empty().push(t0));
            lemma_ntable_push(Seq::empty(), t0);
            assert(ntable(out@) =~= Map::new(|k: (Seq<char>, Seq<char>)| done.contains(k), |k| m[k]));
        }
        let mut i: usize = 0;
        while i < qs.len()
            invariant
                n1 == self@,
                n2 == other@,
                m == Map::new(
                    |k: (Seq<char>, Seq<char>)| true,
                    |k: (Seq<char>, Seq<char>)| if k == fk { starts } else { union_moves(n1, n2, k.0, k.1) },
                ),
                fk == (fresh@, eps()),
                !set_of(qs@).contains(fresh@),
                i <= qs.len(),
                ntable(out@) == Map::new(|k: (Seq<char>, Seq<char>)| done.contains(k), |k| m[k]),
                forall|k: (Seq<char>, Seq<char>)| #[trigger] done.contains(k) ==> k == fk || (set_of(qs@).contains(k.0) && set_of(syms@).contains(k.1)),
                done.contains(fk),
                forall|x: int, b: int| 0 <= x < i && 0 <= b < syms.len() ==> done.contains((#[trigger] qs@[x]@, #[trigger] syms@[b]@)),
            decreases qs.len() - i,
        {
            let mut a: usize = 0;
            while a < syms.len()
                invariant
                    n1 == self@,
                    n2 == other@,
                    m == Map::new(
                        |k: (Seq<char>, Seq<char>)| true,
                        |k: (Seq<char>, Seq<char>)| if k == fk { starts } else { union_moves(n1, n2, k.0, k.1) },
                    ),
                    fk == (fresh@, eps()),
                    !set_of(qs@).contains(fresh@),
                    i < qs.len(),
                    a <= syms.len(),
                    ntable(out@) == Map::new(|k: (Seq<char>, Seq<char>)| done.contains(k), |k| m[k]),
                    forall|k: (Seq<char>, Seq<char>)| #[trigger] done.contains(k) ==> k == fk || (set_of(qs@).contains(k.0) && set_of(syms@).contains(k.1)),
                    done.contains(fk),
                    forall|x: int, b: int| 0 <= x < i && 0 <= b < syms.len() ==> done.contains((#[trigger] qs@[x]@, #[trigger] syms@[b]@)),
                    forall|b: int| 0 <= b < a ==> done.contains((qs@[i as int]@, #[trigger] syms@[b]@)),
                decreases syms.len() - a,
            {
                let ghost k = (qs@[i as int]@, syms@[a as int]@);
                proof {
                    lemma_set_of_index(qs@, i as int);
                    lemma_set_of_index(syms@, a as int);
                }
                let left = targets_of(&self.transition_function, qs[i].as_str(), syms[a].as_str());
                let right = targets_of(&other.transition_function, qs[i].as_str(), syms[a].as_str());
                let both = concat_labels(&left, &right);
                let t = NfaTransition { from: qs[i].clone(), symbol: syms[a].clone(), to: both };
                proof {
                    lemma_ntable_push(out@, t);
                    assert(k != fk);
                    assert(set_of(t.to@) == m[k]);
                }
                out.push(t);
                proof {
                    done = done.insert(k);
                    assert(ntable(out@) =~= Map::new(|k: (Seq<char>, Seq<char>)| done.contains(k), |k| m[k]));
                }
                a = a + 1;
            }
            i = i + 1;
        }
        let r = NondeterministicFiniteAutomata {
            states: { let mut v = copy_labels(&qs); v.push(fresh.clone()); v },
            alphabet: distinct_labels(&all_symbols),
            start_state: fresh,
            transition_function: out,
            accept_states: concat_labels(&self.accept_states, &other.accept_states),
        };
        proof {
            assert(r@.states =~= set_of(qs@).insert(f)) by {
                lemma_set_of_push(qs@, r.start_state);
                assert(r.states@ =~= qs@.push(r.start_state));
            }
            let e = ntable(out@);
            assert forall|k: (Seq<char>, Seq<char>)| n1.delta.contains_key(k) || n2.delta.contains_key(k) implies done.contains(k) by {
                assert(set_of(qs@).contains(k.0));
                assert(set_of(syms@).contains(k.1));
                let x = choose|x: int| 0 <= x < labels(qs@).len() && labels(qs@)[x] == k.0;
                let b = choose|b: int| 0 <= b < labels(syms@).len() && labels(syms@)[b] == k.1;
                assert(done.contains((qs@[x]@, syms@[b]@)));
            }
            assert forall|q: Seq<char>, a: Seq<char>| q != r@.start implies #[trigger] moves(r@, q, a) == union_moves(self@, other@, q, a) by {
                if !done.contains((q, a)) {
                    assert(union_moves(self@, other@, q, a) =~= Set::empty());
                }
            }
            assert forall|a: Seq<char>| a != eps() implies #[trigger] moves(r@, r@.start, a) == Set::<Seq<char>>::empty() by {
                assert(!done.contains((f, a)));
            }
            assert forall|k: (Seq<char>, Seq<char>)| #[trigger] r@.delta.contains_key(k) implies r@.states.contains(k.0)
                && (r@.alphabet.contains(k.1) || k.1 == eps()) && r@.delta[k].subset_of(r@.states) by {
                if k != fk {
                    assert(set_of(syms@).contains(k.1));
                }
            }
        }
        r
    }
}

/// In a well-formed automaton, empty-word moves from a state stay among the states.
pub proof fn lemma_eclose_in_states(n: NfaView, z: Seq<char>)
    requires
        nfa_wf(n),
        n.states.contains(z),
    ensures
        eclose(n, set![z]).subset_of(n.states),
{
    assert forall|y: Seq<char>| eclose(n, set![z]).contains(y) implies n.states.contains(y) by {
        let p = choose|p: Seq<Seq<char>>| #[trigger] eps_path(n, p) && set![z].contains(p[0]) && p.last() == y;
        assert forall|x: Seq<char>, v: Seq<char>| n.states.contains(x) && #[trigger] moves(n, x, eps()).contains(v) implies n.states.contains(v) by {
            assert(n.delta.contains_key((x, eps())));
        }
        lemma_path_in_closed(n, n.states, p, p.len() - 1);
    }
}

/// The entries of `m` whose keys are in `ks`, with `q` taken out of each
/// set of targets where `strip` holds.
pub open spec fn moves_without(
    m: Map<(Seq<char>, Seq<char>), Set<Seq<char>>>,
    ks: Set<(Seq<char>, Seq<char>)>,
    q: Seq<char>,
    strip: bool,
) -> Map<(Seq<char>, Seq<char>), Set<Seq<char>>> {
    Map::new(
        |k: (Seq<char>, Seq<char>)| m.contains_key(k) && ks.contains(k),
        |k| if strip { m[k].remove(q) } else { m[k] },
    )
}

/// The keys that an edit keeps: it drops those that start from `q` (when
/// `by_from`) and read `a` (when `by_symbol`).
pub open spec fn kept_keys(q: Seq<char>, by_from: bool, a: Seq<char>, by_symbol: bool) -> Set<(Seq<char>, Seq<char>)> {
    Set::new(|k: (Seq<char>, Seq<char>)| !((by_from ==> k.0 == q) && (by_symbol ==> k.1 == a)))
}

/// The entries whose keys the edit keeps, with `q` taken out of their
/// targets where `strip` holds.
fn filter_moves(ts: &Vec<NfaTransition>, q: &str, by_from: bool, a: &str, by_symbol: bool, strip: bool) -> (r: Vec<NfaTransition>)
    ensures
        ntable(r@) == moves_without(ntable(ts@), kept_keys(q@, by_from, a@, by_symbol), q@, strip),
{
    let ghost ks = kept_keys(q@, by_from, a@, by_symbol);
    let mut kept: Vec<NfaTransition> = Vec::new();
    let mut j: usize = 0;
    proof {
        assert(ts@.take(0) =~= Seq::<NfaTransition>::empty());
        assert(ntable(kept@) =~= moves_without(ntable(ts@.take(0)), ks, q@, strip));
    }
    while j < ts.len()
        invariant
            ks == kept_keys(q@, by_from, a@, by_symbol),
            j <= ts.len(),
            ntable(kept@) == moves_without(ntable(ts@.take(j as int)), ks, q@, strip),
        decreases ts.len() - j,
    {
        let same_from = str_eq(ts[j].from.as_str(), q);
        let same_symbol = str_eq(ts[j].symbol.as_str(), a);
        let keep = !((!by_from || same_from) && (!by_symbol || same_symbol));
        proof {
            assert(ts@.take(j + 1).drop_last() =~= ts@.take(j as int));
            assert(ts@.take(j + 1).last() == ts@[j as int]);
            assert(keep == ks.contains(nkey_of(ts@[j as int])));
        }
        if keep {
            let to = if strip {
                remove_label(&ts[j].to, q)
            } else {
                copy_labels(&ts[j].to)
            };
            let t = NfaTransition { from: ts[j].from.clone(), symbol: ts[j].symbol.clone(), to };
            proof {
                lemma_ntable_push(kept@, t);
            }
            kept.push(t);
        }
        proof {
            assert(ntable(kept@) =~= moves_without(ntable(ts@.take(j + 1)), ks, q@, strip));
        }
        j = j + 1;
    }
    proof {
        assert(ts@.take(j as int) =~= ts@);
    }
    kept
}

impl NondeterministicFiniteAutomata {
    /// Adds the state `q`.
    pub fn add_state(&mut self, q: String)
        ensures
            final(self)@ == (NfaView { states: old(self)@.states.insert(q@), ..old(self)@ }),
    {
        add_label(&mut self.states, q);
    }

    /// Removes the state `q`: its moves, its place in every set of targets,
    /// and its place among the accept states.
    pub fn remove_state(&mut self, q: &str)
        ensures
            final(self)@ == (NfaView {
                states: old(self)@.states.remove(q@),
                delta: moves_without(old(self)@.delta, kept_keys(q@, true, q@, false), q@, true),
                accept: old(self)@.accept.remove(q@),
                ..old(self)@
            }),
    {
        self.states = remove_label(&self.states, q);
        self.transition_function = filter_moves(&self.transition_function, q, true, q, false, true);
        self.accept_states = remove_label(&self.accept_states, q);
    }

    /// Adds the symbol `a` to the alphabet.
    pub fn add_symbol(&mut self, a: String)
        ensures
            final(self)@ == (NfaView { alphabet: old(self)@.alphabet.insert(a@), ..old(self)@ }),
    {
        add_label(&mut self.alphabet, a);
    }

    /// Removes the symbol `a` and every move on it.
    pub fn remove_symbol(&mut self, a: &str)
        ensures
            final(self)@ == (NfaView {
                alphabet: old(self)@.alphabet.remove(a@),
                delta: moves_without(old(self)@.delta, kept_keys(a@, false, a@, true), a@, false),
                ..old(self)@
            }),
    {
        self.alphabet = remove_label(&self.alphabet, a);
        self.transition_function = filter_moves(&self.transition_function, a, false, a, true, false);
    }

    /// Adds `to` to the targets of the move from `from` on `symbol`.
    pub fn add_transition(&mut self, from: String, symbol: String, to: String)
        ensures
            final(self)@ == (NfaView {
                delta: old(self)@.delta.insert((from@, symbol@), moves(old(self)@, from@, symbol@).insert(to@)),
                ..old(self)@
            }),
    {
        let mut targets: Vec<String> = Vec::new();
        match find_moves(&self.transition_function, from.as_str(), symbol.as_str()) {
            Some(m) => {
                targets = copy_labels(&self.transition_function[m].to);
            },
            None => {
                proof {
                    assert(set_of(targets@) =~= Set::empty());
                }
            },
        }
        proof {
            lemma_set_of_push(targets@, to);
        }
        targets.push(to);
        let t = NfaTransition { from, symbol, to: targets };
        proof {
            lemma_ntable_push(self.transition_function@, t);
        }
        self.transition_function.push(t);
    }

    /// Removes the move from `from` on `symbol`, if any.
    pub fn remove_transition(&mut self, from: &str, symbol: &str)
        ensures
            final(self)@ == (NfaView { delta: old(self)@.delta.remove((from@, symbol@)), ..old(self)@ }),
    {
        let kept = filter_moves(&self.transition_function, from, true, symbol, true, false);
        proof {
            assert(moves_without(old(self)@.delta, kept_keys(from@, true, symbol@, true), from@, false) =~= old(
                self,
            )@.delta.remove((from@, symbol@)));
        }
        self.transition_function = kept;
    }

    /// Sets the start state.
    pub fn set_start_state(&mut self, q: String)
        ensures
            final(self)@ == (NfaView { start: q@, ..old(self)@ }),
    {
        self.start_state = q;
    }

    /// Makes `q` an accept state.
    pub fn add_accept_state(&mut self, q: String)
        ensures
            final(self)@ == (NfaView { accept: old(self)@.accept.insert(q@), ..old(self)@ }),
    {
        add_label(&mut self.accept_states, q);
    }

    /// Makes `q` no longer an accept state.
    pub fn remove_accept_state(&mut self, q: &str)
        ensures
            final(self)@ == (NfaView { accept: old(self)@.accept.remove(q@), ..old(self)@ }),
    {
        self.accept_states = remove_label(&self.accept_states, q);
    }
}

} // verus!
