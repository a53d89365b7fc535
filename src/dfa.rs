//! Deterministic finite automata.
use vstd::prelude::*;
use crate::codec::{labels, str_eq};
use crate::collection::{
    add_label, contains_label, copy_labels, difference, intersection, lemma_distinct_bounded,
    lemma_set_of_index, lemma_set_of_push, remove_label, set_of,
};

verus! {

/// One entry of a deterministic transition table: from `from`, reading
/// `symbol`, the automaton moves to `to`.
pub struct Transition {
    pub from: String,
    pub symbol: String,
    pub to: String,
}

/// A deterministic finite automaton over string labels. The transition
/// table may be partial: a missing entry rejects the word.
pub struct DeterministicFiniteAutomata {
    pub states: Vec<String>,
    pub alphabet: Vec<String>,
    pub transition_function: Vec<Transition>,
    pub start_state: String,
    pub accept_states: Vec<String>,
}

/// The mathematical content of a deterministic automaton.
pub struct DfaView {
    pub states: Set<Seq<char>>,
    pub alphabet: Set<Seq<char>>,
    pub delta: Map<(Seq<char>, Seq<char>), Seq<char>>,
    pub start: Seq<char>,
    pub accept: Set<Seq<char>>,
}

pub open spec fn key_of(t: Transition) -> (Seq<char>, Seq<char>) {
    (t.from@, t.symbol@)
}

/// The partial function that a list of entries describes; a later entry for
/// the same state and symbol replaces an earlier one.
pub open spec fn table(ts: Seq<Transition>) -> Map<(Seq<char>, Seq<char>), Seq<char>>
    decreases ts.len(),
{
    if ts.len() == 0 {
        Map::empty()
    } else {
        table(ts.drop_last()).insert(key_of(ts.last()), ts.last().to@)
    }
}

impl View for DeterministicFiniteAutomata {
    type V = DfaView;

    open spec fn view(&self) -> DfaView {
        DfaView {
            states: set_of(self.states@),
            alphabet: set_of(self.alphabet@),
            delta: table(self.transition_function@),
            start: self.start_state@,
            accept: set_of(self.accept_states@),
        }
    }
}

/// The state reached from `q` by reading the symbols of `w` in turn, if
/// every step is defined.
pub open spec fn run(
    delta: Map<(Seq<char>, Seq<char>), Seq<char>>,
    q: Seq<char>,
    w: Seq<Seq<char>>,
) -> Option<Seq<char>>
    decreases w.len(),
{
    if w.len() == 0 {
        Some(q)
    } else if delta.contains_key((q, w[0])) {
        run(delta, delta[(q, w[0])], w.drop_first())
    } else {
        None
    }
}

/// Whether the automaton accepts the word `w` (a sequence of symbols).
pub open spec fn accepts(d: DfaView, w: Seq<Seq<char>>) -> bool {
    match run(d.delta, d.start, w) {
        Some(q) => d.accept.contains(q),
        None => false,
    }
}

/// A string read as a word: each character is one symbol.
pub open spec fn word(s: Seq<char>) -> Seq<Seq<char>> {
    s.map_values(|c: char| seq![c])
}

/// The invariant of a deterministic automaton: the start state and the
/// accept states are states, and every entry of the table leads from a
/// state on a symbol of the alphabet to a state.
pub open spec fn dfa_wf(d: DfaView) -> bool {
    &&& d.states.contains(d.start)
    &&& d.accept.subset_of(d.states)
    &&& forall|k: (Seq<char>, Seq<char>)|
        #[trigger] d.delta.contains_key(k) ==> d.states.contains(k.0) && d.alphabet.contains(k.1)
            && d.states.contains(d.delta[k])
}

/// States reachable from `from` by some word.
pub open spec fn reachable_from(delta: Map<(Seq<char>, Seq<char>), Seq<char>>, from: Seq<char>) -> Set<
    Seq<char>,
> {
    Set::new(|q: Seq<char>| exists|w: Seq<Seq<char>>| run(delta, from, w) == Some(q))
}

/// States from which some word leads to an accept state.
pub open spec fn productive(delta: Map<(Seq<char>, Seq<char>), Seq<char>>, accept: Set<Seq<char>>) -> Set<
    Seq<char>,
> {
    Set::new(
        |q: Seq<char>|
            exists|w: Seq<Seq<char>>|
                #[trigger] run(delta, q, w) is Some && accept.contains(run(delta, q, w)->0),
    )
}

/// The moves of `delta` that leave a state of `keep`.
pub open spec fn moves_from(delta: Map<(Seq<char>, Seq<char>), Seq<char>>, keep: Set<Seq<char>>) -> Map<
    (Seq<char>, Seq<char>),
    Seq<char>,
> {
    Map::new(|k: (Seq<char>, Seq<char>)| delta.contains_key(k) && keep.contains(k.0), |k| delta[k])
}

/// The moves of `delta` that stay within `keep`.
pub open spec fn moves_within(delta: Map<(Seq<char>, Seq<char>), Seq<char>>, keep: Set<Seq<char>>) -> Map<
    (Seq<char>, Seq<char>),
    Seq<char>,
> {
    Map::new(
        |k: (Seq<char>, Seq<char>)| delta.contains_key(k) && keep.contains(k.0) && keep.contains(delta[k]),
        |k| delta[k],
    )
}

/// The entries of `m` whose keys are in `ks`.
pub open spec fn filter_keys(m: Map<(Seq<char>, Seq<char>), Seq<char>>, ks: Set<(Seq<char>, Seq<char>)>) -> Map<
    (Seq<char>, Seq<char>),
    Seq<char>,
> {
    Map::new(|k: (Seq<char>, Seq<char>)| m.contains_key(k) && ks.contains(k), |k| m[k])
}

/// The targets of the entries, in order.
pub open spec fn targets(ts: Seq<Transition>) -> Seq<Seq<char>> {
    ts.map_values(|t: Transition| t.to@)
}

/// The sources of the entries, in order.
pub open spec fn sources(ts: Seq<Transition>) -> Seq<Seq<char>> {
    ts.map_values(|t: Transition| t.from@)
}

/// A set that holds `q` and is closed under the moves holds every state reachable from `q`.
pub proof fn lemma_closed_holds_reachable(
    delta: Map<(Seq<char>, Seq<char>), Seq<char>>,
    s: Set<Seq<char>>,
    q: Seq<char>,
    w: Seq<Seq<char>>,
)
    requires
        s.contains(q),
        forall|k: (Seq<char>, Seq<char>)|
            #[trigger] delta.contains_key(k) && s.contains(k.0) ==> s.contains(delta[k]),
    ensures
        run(delta, q, w) is Some ==> s.contains(run(delta, q, w)->0),
    decreases w.len(),
{
    if w.len() > 0 && delta.contains_key((q, w[0])) {
        lemma_closed_holds_reachable(delta, s, delta[(q, w[0])], w.drop_first());
    }
}

/// A set that holds the accept states and every state with a move into it
/// holds every productive state.
pub proof fn lemma_back_closed_holds_productive(
    delta: Map<(Seq<char>, Seq<char>), Seq<char>>,
    accept: Set<Seq<char>>,
    s: Set<Seq<char>>,
    q: Seq<char>,
    w: Seq<Seq<char>>,
)
    requires
        accept.subset_of(s),
        forall|k: (Seq<char>, Seq<char>)|
            #[trigger] delta.contains_key(k) && s.contains(delta[k]) ==> s.contains(k.0),
        run(delta, q, w) is Some,
        accept.contains(run(delta, q, w)->0),
    ensures
        s.contains(q),
    decreases w.len(),
{
    if w.len() > 0 {
        lemma_back_closed_holds_productive(delta, accept, s, delta[(q, w[0])], w.drop_first());
    }
}

/// In a well-formed automaton every state reached from a state is a state.
pub proof fn lemma_run_stays(d: DfaView, q: Seq<char>, w: Seq<Seq<char>>)
    requires
        dfa_wf(d),
        d.states.contains(q),
    ensures
        run(d.delta, q, w) is Some ==> d.states.contains(run(d.delta, q, w)->0),
    decreases w.len(),
{
    if w.len() > 0 && d.delta.contains_key((q, w[0])) {
        lemma_run_stays(d, d.delta[(q, w[0])], w.drop_first());
    }
}

/// Reading in a sub-table that ends somewhere ends there in the full table too.
pub proof fn lemma_run_sub(
    e: Map<(Seq<char>, Seq<char>), Seq<char>>,
    d: Map<(Seq<char>, Seq<char>), Seq<char>>,
    q: Seq<char>,
    w: Seq<Seq<char>>,
)
    requires
        forall|k: (Seq<char>, Seq<char>)| #[trigger] e.contains_key(k) ==> d.contains_key(k) && d[k] == e[k],
    ensures
        run(e, q, w) is Some ==> run(d, q, w) == run(e, q, w),
    decreases w.len(),
{
    if w.len() > 0 && e.contains_key((q, w[0])) {
        lemma_run_sub(e, d, e[(q, w[0])], w.drop_first());
    }
}

/// From a reachable state, reading in the moves that leave reachable states
/// is reading in the whole table.
pub proof fn lemma_run_reachable(
    delta: Map<(Seq<char>, Seq<char>), Seq<char>>,
    start: Seq<char>,
    q: Seq<char>,
    w: Seq<Seq<char>>,
)
    requires
        reachable_from(delta, start).contains(q),
    ensures
        run(moves_from(delta, reachable_from(delta, start)), q, w) == run(delta, q, w),
    decreases w.len(),
{
    let rs = reachable_from(delta, start);
    let e = moves_from(delta, rs);
    if w.len() > 0 && delta.contains_key((q, w[0])) {
        let w0 = choose|v: Seq<Seq<char>>| run(delta, start, v) == Some(q);
        lemma_run_push(delta, start, w0, w[0]);
        assert(run(delta, start, w0.push(w[0])) == Some(delta[(q, w[0])]));
        assert(rs.contains(delta[(q, w[0])]));
        assert(e.contains_key((q, w[0])));
        lemma_run_reachable(delta, start, delta[(q, w[0])], w.drop_first());
    }
}

/// A word that leads from `q` to an accept state leads there through kept moves.
pub proof fn lemma_run_productive(
    delta: Map<(Seq<char>, Seq<char>), Seq<char>>,
    accept: Set<Seq<char>>,
    keep: Set<Seq<char>>,
    q: Seq<char>,
    w: Seq<Seq<char>>,
)
    requires
        productive(delta, accept).subset_of(keep),
        run(delta, q, w) is Some,
        accept.contains(run(delta, q, w)->0),
    ensures
        run(moves_within(delta, keep), q, w) == run(delta, q, w),
    decreases w.len(),
{
    assert(productive(delta, accept).contains(q));
    if w.len() > 0 {
        let n = delta[(q, w[0])];
        assert(run(delta, n, w.drop_first()) == run(delta, q, w));
        assert(productive(delta, accept).contains(n));
        lemma_run_productive(delta, accept, keep, n, w.drop_first());
    }
}

pub proof fn lemma_table_suffix(ts: Seq<Transition>, i: int, k: (Seq<char>, Seq<char>))
    requires
        0 <= i <= ts.len(),
        forall|j: int| i <= j < ts.len() ==> key_of(#[trigger] ts[j]) != k,
    ensures
        table(ts).contains_key(k) == table(ts.take(i)).contains_key(k),
        table(ts).contains_key(k) ==> table(ts)[k] == table(ts.take(i))[k],
    decreases ts.len() - i,
{
    if i == ts.len() {
        assert(ts.take(i) =~= ts);
    } else {
        let t = ts.drop_last();
        assert(key_of(ts[ts.len() - 1]) != k);
        assert forall|j: int| i <= j < t.len() implies key_of(#[trigger] t[j]) != k by {
            assert(t[j] == ts[j]);
        }
        lemma_table_suffix(t, i, k);
        assert(t.take(i) =~= ts.take(i));
    }
}

/// Every key of the table comes from some entry.
pub proof fn lemma_table_key(ts: Seq<Transition>, k: (Seq<char>, Seq<char>))
    requires
        table(ts).contains_key(k),
    ensures
        exists|j: int| 0 <= j < ts.len() && key_of(#[trigger] ts[j]) == k,
    decreases ts.len(),
{
    let t = ts.drop_last();
    if key_of(ts.last()) != k {
        lemma_table_key(t, k);
        let j = choose|j: int| 0 <= j < t.len() && key_of(#[trigger] t[j]) == k;
        assert(ts[j] == t[j]);
    }
}

/// Every entry's key is in the table.
pub proof fn lemma_table_entry(ts: Seq<Transition>, j: int)
    requires
        0 <= j < ts.len(),
    ensures
        table(ts).contains_key(key_of(ts[j])),
    decreases ts.len(),
{
    if j < ts.len() - 1 {
        lemma_table_entry(ts.drop_last(), j);
    }
}

/// The index of the entry that gives the move from `q` on `a`, if any.
pub fn find_transition(ts: &Vec<Transition>, q: &str, a: &str) -> (r: Option<usize>)
    ensures
        match r {
            Some(i) => i < ts.len() && table(ts@).contains_key((q@, a@)) && table(ts@)[(q@, a@)]
                == ts@[i as int].to@,
            None => !table(ts@).contains_key((q@, a@)),
        },
{
    let ghost k = (q@, a@);
    let mut i: usize = ts.len();
    while i > 0
        invariant
            k == (q@, a@),
            i <= ts.len(),
            forall|j: int| i <= j < ts.len() ==> key_of(#[trigger] ts@[j]) != k,
        decreases i,
    {
        let same_from = str_eq(ts[i - 1].from.as_str(), q);
        let same_symbol = str_eq(ts[i - 1].symbol.as_str(), a);
        proof {
            assert(same_from == (ts@[i - 1].from@ == q@));
            assert(same_symbol == (ts@[i - 1].symbol@ == a@));
        }
        if same_from && same_symbol {
            proof {
                assert(key_of(ts@[i - 1]) == k);
                lemma_table_suffix(ts@, i as int, k);
                let p = ts@.take(i as int);
                assert(p.drop_last() =~= ts@.take(i - 1));
                assert(p.last() == ts@[i - 1]);
                assert(table(p) == table(p.drop_last()).insert(key_of(p.last()), p.last().to@));
            }
            return Some(i - 1);
        }
        proof {
            assert(key_of(ts@[i - 1]) != k);
        }
        i = i - 1;
    }
    proof {
        lemma_table_suffix(ts@, 0, k);
        assert(ts@.take(0) =~= Seq::<Transition>::empty());
    }
    None
}

pub proof fn lemma_run_push(
    delta: Map<(Seq<char>, Seq<char>), Seq<char>>,
    q: Seq<char>,
    w: Seq<Seq<char>>,
    a: Seq<char>,
)
    ensures
        run(delta, q, w.push(a)) == match run(delta, q, w) {
            Some(p) => if delta.contains_key((p, a)) {
                Some(delta[(p, a)])
            } else {
                None
            },
            None => None,
        },
    decreases w.len(),
{
    if w.len() == 0 {
        assert(w.push(a).drop_first() =~= Seq::<Seq<char>>::empty());
        assert(w.push(a)[0] == a);
        if delta.contains_key((q, a)) {
            assert(run(delta, delta[(q, a)], Seq::empty()) == Some(delta[(q, a)]));
        }
    } else {
        assert(w.push(a).drop_first() =~= w.drop_first().push(a));
        assert(w.push(a)[0] == w[0]);
        if delta.contains_key((q, w[0])) {
            lemma_run_push(delta, delta[(q, w[0])], w.drop_first(), a);
        }
    }
}

/// A copy of a transition entry.
pub fn copy_transition(t: &Transition) -> (r: Transition)
    ensures
        r == *t,
{
    Transition { from: t.from.clone(), symbol: t.symbol.clone(), to: t.to.clone() }
}

/// A copy of a list of transition entries.
pub fn copy_transitions(v: &Vec<Transition>) -> (r: Vec<Transition>)
    ensures
        r@ == v@,
{
    let mut r: Vec<Transition> = Vec::new();
    let mut i: usize = 0;
    while i < v.len()
        invariant
            i <= v.len(),
            r@ == v@.take(i as int),
        decreases v.len() - i,
    {
        r.push(copy_transition(&v[i]));
        proof {
            assert(v@.take(i + 1) =~= v@.take(i as int).push(v@[i as int]));
        }
        i = i + 1;
    }
    proof {
        assert(v@.take(i as int) =~= v@);
    }
    r
}

impl DeterministicFiniteAutomata {
    /// The automaton with no states, no symbols, no transitions and an empty start label.
    pub fn new() -> (r: Self)
        ensures
            r@.states.is_empty(),
            r@.alphabet.is_empty(),
            r@.delta.is_empty(),
            r@.start.len() == 0,
            r@.accept.is_empty(),
    {
        let r = DeterministicFiniteAutomata {
            states: Vec::new(),
            alphabet: Vec::new(),
            transition_function: Vec::new(),
            start_state: String::new(),
            accept_states: Vec::new(),
        };
        proof {
            assert(set_of(r.states@) =~= Set::empty());
            assert(set_of(r.alphabet@) =~= Set::empty());
            assert(set_of(r.accept_states@) =~= Set::empty());
            assert(table(r.transition_function@) =~= Map::empty());
        }
        r
    }

    /// Whether the automaton accepts `input`, each character being one
    /// symbol. A missing transition rejects the word.
    pub fn compute(&self, input: &str) -> (r: bool)
        ensures
            r == accepts(self@, word(input@)),
    {
        let ghost w = word(input@);
        let ghost delta = table(self.transition_function@);
        let n = input.unicode_len();
        let mut state = self.start_state.clone();
        let mut i: usize = 0;
        proof {
            assert(w.skip(0) =~= w);
        }
        while i < n
            invariant
                n == input@.len(),
                w == word(input@),
                delta == table(self.transition_function@),
                i <= n,
                run(delta, self.start_state@, w) == run(delta, state@, w.skip(i as int)),
            decreases n - i,
        {
            let a = input.substring_char(i, i + 1);
            proof {
                assert(a@ =~= seq![input@[i as int]]);
                assert(w.skip(i as int)[0] == a@);
                assert(w.skip(i as int).drop_first() =~= w.skip(i + 1));
            }
            match find_transition(&self.transition_function, state.as_str(), a) {
                Some(j) => {
                    state = self.transition_function[j].to.clone();
                },
                None => {
                    return false;
                },
            }
            i = i + 1;
        }
        proof {
            assert(w.skip(i as int).len() == 0);
        }
        contains_label(&self.accept_states, state.as_str())
    }

    /// The automaton with the same states and moves whose accept states are
    /// exactly the states that were not accepting. On a total transition
    /// table it accepts exactly the words this one rejects.
    pub fn complement(&self) -> (r: Self)
        ensures
            r@ == (DfaView { accept: self@.states.difference(self@.accept), ..self@ }),
    {
        DeterministicFiniteAutomata {
            states: copy_labels(&self.states),
            alphabet: copy_labels(&self.alphabet),
            transition_function: copy_transitions(&self.transition_function),
            start_state: self.start_state.clone(),
            accept_states: difference(&self.states, &self.accept_states),
        }
    }
}


impl DeterministicFiniteAutomata {
    /// The automaton restricted to the states reachable from the start state:
    /// the moves that leave them and the accept states among them are kept.
    pub fn remove_unreachable_states(&self) -> (r: Self)
        ensures
            r@.states == reachable_from(self@.delta, self@.start),
            r@.alphabet == self@.alphabet,
            r@.delta == moves_from(self@.delta, reachable_from(self@.delta, self@.start)),
            r@.start == self@.start,
            r@.accept == self@.accept.intersect(reachable_from(self@.delta, self@.start)),
            forall|w: Seq<Seq<char>>| accepts(r@, w) == accepts(self@, w),
            dfa_wf(self@) ==> dfa_wf(r@) && r@.states.subset_of(self@.states),
    {
        let ghost delta = self@.delta;
        let ghost start = self@.start;
        let ts = &self.transition_function;
        let ghost universe = seq![start] + targets(ts@);
        let mut reach: Vec<String> = Vec::new();
        reach.push(self.start_state.clone());
        proof {
            assert(run(delta, start, Seq::empty()) == Some(start));
            assert(labels(reach@) =~= seq![start]);
            assert(universe[0] == start);
        }
        let mut i: usize = 0;
        while i < reach.len()
            invariant
                delta == table(ts@),
                start == self@.start,
                universe == seq![start] + targets(ts@),
                i <= reach.len(),
                reach.len() > 0,
                reach@[0]@ == start,
                labels(reach@).no_duplicates(),
                labels(reach@).to_set().subset_of(universe.to_set()),
                forall|k: int| 0 <= k < reach.len() ==> #[trigger] reachable_from(delta, start).contains(reach@[k]@),
                forall|k: int, a: Seq<char>|
                    0 <= k < i && #[trigger] delta.contains_key((reach@[k]@, a)) ==> set_of(reach@).contains(
                        delta[(reach@[k]@, a)],
                    ),
            decreases universe.len() - i,
        {
            proof {
                lemma_distinct_bounded(labels(reach@), universe);
            }
            let q = reach[i].clone();
            proof {
                assert(reachable_from(delta, start).contains(reach@[i as int]@));
                assert(exists|w: Seq<Seq<char>>| run(delta, start, w) == Some(q@));
            }
            let ghost wq = choose|w: Seq<Seq<char>>| run(delta, start, w) == Some(q@);
            let mut j: usize = 0;
            while j < ts.len()
                invariant
                    delta == table(ts@),
                    start == self@.start,
                    universe == seq![start] + targets(ts@),
                    i < reach.len(),
                    q@ == reach@[i as int]@,
                    run(delta, start, wq) == Some(q@),
                    j <= ts.len(),
                    reach@[0]@ == start,
                    labels(reach@).no_duplicates(),
                    labels(reach@).to_set().subset_of(universe.to_set()),
                    forall|k: int| 0 <= k < reach.len() ==> #[trigger] reachable_from(delta, start).contains(reach@[k]@),
                    forall|k: int, a: Seq<char>|
                        0 <= k < i && #[trigger] delta.contains_key((reach@[k]@, a)) ==> set_of(reach@).contains(
                            delta[(reach@[k]@, a)],
                        ),
                    forall|m: int|
                        0 <= m < j && (#[trigger] ts@[m]).from@ == q@ ==> set_of(reach@).contains(
                            delta[(q@, ts@[m].symbol@)],
                        ),
                decreases ts.len() - j,
            {
                if str_eq(ts[j].from.as_str(), q.as_str()) {
                    let found = find_transition(ts, q.as_str(), ts[j].symbol.as_str());
                    proof {
                        lemma_table_entry(ts@, j as int);
                        assert(key_of(ts@[j as int]) == (q@, ts@[j as int].symbol@));
                    }
                    let m = found.unwrap();
                    let target = ts[m].to.clone();
                    let ghost before = reach@;
                    if !contains_label(&reach, target.as_str()) {
                        proof {
                            let a = ts@[j as int].symbol@;
                            lemma_run_push(delta, start, wq, a);
                            assert(run(delta, start, wq.push(a)) == Some(target@));
                            assert(targets(ts@)[m as int] == target@);
                            assert(universe[m + 1] == target@);
                            assert(universe.to_set().contains(target@));
                            lemma_set_of_push(reach@, target);
                        }
                        reach.push(target);
                        proof {
                            assert(labels(reach@) =~= labels(before).push(target@));
                            assert forall|k: int| 0 <= k < reach.len() implies #[trigger] reachable_from(
                                delta,
                                start,
                            ).contains(reach@[k]@) by {
                                if k == before.len() {
                                    let a = ts@[j as int].symbol@;
                                    assert(run(delta, start, wq.push(a)) == Some(reach@[k]@));
                                } else {
                                    assert(reach@[k] == before[k]);
                                }
                            }
                            assert forall|x: Seq<char>| labels(reach@).to_set().contains(x) implies universe.to_set().contains(x) by {
                                if x != target@ {
                                    assert(set_of(before).contains(x));
                                }
                            }
                        }
                    }
                }
                j = j + 1;
            }
            proof {
                assert forall|k: int, a: Seq<char>|
                    0 <= k < i + 1 && #[trigger] delta.contains_key((reach@[k]@, a)) implies set_of(
                        reach@,
                    ).contains(delta[(reach@[k]@, a)]) by {
                    if k == i {
                        lemma_table_key(ts@, (reach@[k]@, a));
                        let m = choose|m: int| 0 <= m < ts@.len() && key_of(#[trigger] ts@[m]) == (reach@[k]@, a);
                        assert(ts@[m].from@ == q@);
                    }
                }
            }
            i = i + 1;
        }
        let ghost rs = reachable_from(delta, start);
        proof {
            assert forall|k: (Seq<char>, Seq<char>)|
                #[trigger] delta.contains_key(k) && set_of(reach@).contains(k.0) implies set_of(reach@).contains(
                    delta[k],
                ) by {
                let m = choose|m: int| 0 <= m < labels(reach@).len() && labels(reach@)[m] == k.0;
                assert(delta.contains_key((reach@[m]@, k.1)));
            }
            assert forall|x: Seq<char>| rs.contains(x) <==> set_of(reach@).contains(x) by {
                if rs.contains(x) {
                    let w = choose|w: Seq<Seq<char>>| run(delta, start, w) == Some(x);
                    lemma_set_of_index(reach@, 0);
                    lemma_closed_holds_reachable(delta, set_of(reach@), start, w);
                }
                if set_of(reach@).contains(x) {
                    let m = choose|m: int| 0 <= m < labels(reach@).len() && labels(reach@)[m] == x;
                    assert(rs.contains(reach@[m]@));
                }
            }
            assert(rs =~= set_of(reach@));
        }
        let mut kept: Vec<Transition> = Vec::new();
        let mut j: usize = 0;
        proof {
            assert(ts@.take(0) =~= Seq::<Transition>::empty());
            assert(table(kept@) =~= moves_from(table(ts@.take(0)), rs));
        }
        while j < ts.len()
            invariant
                rs == set_of(reach@),
                j <= ts.len(),
                table(kept@) == moves_from(table(ts@.take(j as int)), rs),
            decreases ts.len() - j,
        {
            let ghost pre = ts@.take(j as int);
            proof {
                assert(ts@.take(j + 1).drop_last() =~= pre);
                assert(ts@.take(j + 1).last() == ts@[j as int]);
            }
            if contains_label(&reach, ts[j].from.as_str()) {
                let ghost before = kept@;
                kept.push(copy_transition(&ts[j]));
                proof {
                    assert(kept@.drop_last() =~= before);
                    assert(table(kept@) =~= moves_from(table(ts@.take(j + 1)), rs));
                }
            } else {
                proof {
                    assert(table(kept@) =~= moves_from(table(ts@.take(j + 1)), rs));
                }
            }
            j = j + 1;
        }
        proof {
            assert(ts@.take(j as int) =~= ts@);
        }
        let accept_states = intersection(&self.accept_states, &reach);
        let r = DeterministicFiniteAutomata {
            states: reach,
            alphabet: copy_labels(&self.alphabet),
            transition_function: kept,
            start_state: self.start_state.clone(),
            accept_states,
        };
        proof {
            assert(run(delta, start, Seq::empty()) == Some(start));
            assert(rs.contains(start));
            assert forall|w: Seq<Seq<char>>| accepts(r@, w) == accepts(self@, w) by {
                lemma_run_reachable(delta, start, start, w);
                lemma_closed_holds_reachable(delta, rs, start, w);
                if run(delta, start, w) is Some {
                    let x = run(delta, start, w)->0;
                    assert(rs.contains(x));
                }
            }
            if dfa_wf(self@) {
                assert forall|x: Seq<char>| rs.contains(x) implies self@.states.contains(x) by {
                    let w = choose|w: Seq<Seq<char>>| run(delta, start, w) == Some(x);
                    lemma_run_stays(self@, start, w);
                }
                assert forall|k: (Seq<char>, Seq<char>)| #[trigger] r@.delta.contains_key(k) implies r@.states.contains(k.0)
                    && r@.alphabet.contains(k.1) && r@.states.contains(r@.delta[k]) by {
                    assert(delta.contains_key(k));
                }
            }
        }
        r
    }
}

impl DeterministicFiniteAutomata {
    /// The automaton restricted to the states from which an accept state can
    /// be reached, together with the start state: the moves between kept
    /// states and all accept states are kept.
    pub fn remove_non_productive_states(&self) -> (r: Self)
        ensures
            r@.states == productive(self@.delta, self@.accept).insert(self@.start),
            r@.alphabet == self@.alphabet,
            r@.delta == moves_within(self@.delta, productive(self@.delta, self@.accept).insert(self@.start)),
            r@.start == self@.start,
            r@.accept == self@.accept,
            forall|w: Seq<Seq<char>>| accepts(r@, w) == accepts(self@, w),
            dfa_wf(self@) ==> dfa_wf(r@) && r@.states.subset_of(self@.states),
    {
        let ghost delta = self@.delta;
        let ghost accept = self@.accept;
        let ts = &self.transition_function;
        let mut live: Vec<String> = Vec::new();
        let mut i: usize = 0;
        proof {
            assert(labels(live@) =~= Seq::<Seq<char>>::empty());
            assert(set_of(live@) =~= set_of(self.accept_states@.take(0)));
        }
        while i < self.accept_states.len()
            invariant
                i <= self.accept_states.len(),
                labels(live@).no_duplicates(),
                set_of(live@) == set_of(self.accept_states@.take(i as int)),
            decreases self.accept_states.len() - i,
        {
            proof {
                assert(self.accept_states@.take(i + 1) =~= self.accept_states@.take(i as int).push(
                    self.accept_states@[i as int],
                ));
                lemma_set_of_push(self.accept_states@.take(i as int), self.accept_states@[i as int]);
            }
            add_label(&mut live, self.accept_states[i].clone());
            i = i + 1;
        }
        proof {
            assert(self.accept_states@.take(i as int) =~= self.accept_states@);
        }
        let ghost universe = labels(self.accept_states@) + sources(ts@);
        let ghost ps = productive(delta, accept);
        proof {
            assert forall|k: int| 0 <= k < live.len() implies #[trigger] ps.contains(live@[k]@) by {
                lemma_set_of_index(live@, k);
                assert(run(delta, live@[k]@, Seq::empty()) == Some(live@[k]@));
            }
            assert forall|x: Seq<char>| labels(live@).to_set().contains(x) implies universe.to_set().contains(x) by {
                let m = choose|m: int| 0 <= m < labels(self.accept_states@).len() && labels(self.accept_states@)[m] == x;
                assert(universe[m] == x);
            }
        }
        let mut i: usize = 0;
        while i < live.len()
            invariant
                delta == table(ts@),
                accept == self@.accept,
                ps == productive(delta, accept),
                universe == labels(self.accept_states@) + sources(ts@),
                i <= live.len(),
                accept.subset_of(set_of(live@)),
                labels(live@).no_duplicates(),
                labels(live@).to_set().subset_of(universe.to_set()),
                forall|k: int| 0 <= k < live.len() ==> #[trigger] ps.contains(live@[k]@),
                forall|k: int, key: (Seq<char>, Seq<char>)|
                    0 <= k < i && #[trigger] delta.contains_key(key) && delta[key] == (#[trigger] live@[k])@
                        ==> set_of(live@).contains(key.0),
            decreases universe.len() - i,
        {
            proof {
                lemma_distinct_bounded(labels(live@), universe);
            }
            let p = live[i].clone();
            let mut j: usize = 0;
            while j < ts.len()
                invariant
                    delta == table(ts@),
                    accept == self@.accept,
                    ps == productive(delta, accept),
                    universe == labels(self.accept_states@) + sources(ts@),
                    i < live.len(),
                    p@ == live@[i as int]@,
                    j <= ts.len(),
                    accept.subset_of(set_of(live@)),
                    labels(live@).no_duplicates(),
                    labels(live@).to_set().subset_of(universe.to_set()),
                    forall|k: int| 0 <= k < live.len() ==> #[trigger] ps.contains(live@[k]@),
                    forall|k: int, key: (Seq<char>, Seq<char>)|
                        0 <= k < i && #[trigger] delta.contains_key(key) && delta[key] == (#[trigger] live@[k])@
                            ==> set_of(live@).contains(key.0),
                    forall|m: int|
                        0 <= m < j && delta[key_of(#[trigger] ts@[m])] == p@ ==> set_of(live@).contains(
                            ts@[m].from@,
                        ),
                decreases ts.len() - j,
            {
                proof {
                    lemma_table_entry(ts@, j as int);
                }
                let found = find_transition(ts, ts[j].from.as_str(), ts[j].symbol.as_str());
                let m = found.unwrap();
                if str_eq(ts[m].to.as_str(), p.as_str()) {
                    let source = ts[j].from.clone();
                    if !contains_label(&live, source.as_str()) {
                        let ghost before = live@;
                        proof {
                            let a = ts@[j as int].symbol@;
                            assert(ps.contains(p@));
                            let w = choose|w: Seq<Seq<char>>|
                                #[trigger] run(delta, p@, w) is Some && accept.contains(run(delta, p@, w)->0);
                            let w2 = seq![a] + w;
                            assert(w2[0] == a);
                            assert(w2.drop_first() =~= w);
                            assert(run(delta, source@, w2) == run(delta, p@, w));
                            assert(ps.contains(source@));
                            assert(sources(ts@)[j as int] == source@);
                            assert(universe[self.accept_states@.len() + j] == source@);
                            lemma_set_of_push(live@, source);
                        }
                        live.push(source);
                        proof {
                            assert(labels(live@) =~= labels(before).push(live@[before.len() as int]@));
                            assert forall|k: int| 0 <= k < live.len() implies #[trigger] ps.contains(live@[k]@) by {
                                if k < before.len() {
                                    assert(live@[k] == before[k]);
                                }
                            }
                            assert forall|x: Seq<char>| labels(live@).to_set().contains(x) implies universe.to_set().contains(x) by {
                                if x != live@[before.len() as int]@ {
                                    assert(set_of(before).contains(x));
                                }
                            }
                        }
                    }
                }
                j = j + 1;
            }
            proof {
                assert forall|k: int, key: (Seq<char>, Seq<char>)|
                    0 <= k < i + 1 && #[trigger] delta.contains_key(key) && delta[key] == (#[trigger] live@[k])@
                        implies set_of(live@).contains(key.0) by {
                    if k == i {
                        lemma_table_key(ts@, key);
                        let m = choose|m: int| 0 <= m < ts@.len() && key_of(#[trigger] ts@[m]) == key;
                        assert(delta[key_of(ts@[m])] == p@);
                    }
                }
            }
            i = i + 1;
        }
        proof {
            assert forall|key: (Seq<char>, Seq<char>)|
                #[trigger] delta.contains_key(key) && set_of(live@).contains(delta[key]) implies set_of(live@).contains(
                    key.0,
                ) by {
                let m = choose|m: int| 0 <= m < labels(live@).len() && labels(live@)[m] == delta[key];
                assert(delta[key] == live@[m]@);
            }
            assert forall|x: Seq<char>| ps.contains(x) <==> set_of(live@).contains(x) by {
                if ps.contains(x) {
                    let w = choose|w: Seq<Seq<char>>|
                        #[trigger] run(delta, x, w) is Some && accept.contains(run(delta, x, w)->0);
                    lemma_back_closed_holds_productive(delta, accept, set_of(live@), x, w);
                }
                if set_of(live@).contains(x) {
                    let m = choose|m: int| 0 <= m < labels(live@).len() && labels(live@)[m] == x;
                    assert(ps.contains(live@[m]@));
                }
            }
            assert(ps =~= set_of(live@));
        }
        add_label(&mut live, self.start_state.clone());
        let ghost keep = ps.insert(self@.start);
        let ghost ks = Set::new(
            |k: (Seq<char>, Seq<char>)| keep.contains(k.0) && delta.contains_key(k) && keep.contains(delta[k]),
        );
        let mut kept: Vec<Transition> = Vec::new();
        let mut j: usize = 0;
        proof {
            assert(ts@.take(0) =~= Seq::<Transition>::empty());
            assert(table(kept@) =~= filter_keys(table(ts@.take(0)), ks));
        }
        while j < ts.len()
            invariant
                delta == table(ts@),
                keep == set_of(live@),
                ks == Set::new(
                    |k: (Seq<char>, Seq<char>)| keep.contains(k.0) && delta.contains_key(k) && keep.contains(delta[k]),
                ),
                j <= ts.len(),
                table(kept@) == filter_keys(table(ts@.take(j as int)), ks),
            decreases ts.len() - j,
        {
            let ghost pre = ts@.take(j as int);
            proof {
                assert(ts@.take(j + 1).drop_last() =~= pre);
                assert(ts@.take(j + 1).last() == ts@[j as int]);
                lemma_table_entry(ts@, j as int);
            }
            let m = find_transition(ts, ts[j].from.as_str(), ts[j].symbol.as_str()).unwrap();
            if contains_label(&live, ts[j].from.as_str()) && contains_label(&live, ts[m].to.as_str()) {
                let ghost before = kept@;
                kept.push(copy_transition(&ts[j]));
                proof {
                    assert(ks.contains(key_of(ts@[j as int])));
                    assert(kept@.drop_last() =~= before);
                    assert(table(kept@) =~= filter_keys(table(ts@.take(j + 1)), ks));
                }
            } else {
                proof {
                    assert(!ks.contains(key_of(ts@[j as int])));
                    assert(table(kept@) =~= filter_keys(table(ts@.take(j + 1)), ks));
                }
            }
            j = j + 1;
        }
        proof {
            assert(ts@.take(j as int) =~= ts@);
            assert(filter_keys(delta, ks) =~= moves_within(delta, keep));
        }
        let r = DeterministicFiniteAutomata {
            states: live,
            alphabet: copy_labels(&self.alphabet),
            transition_function: kept,
            start_state: self.start_state.clone(),
            accept_states: copy_labels(&self.accept_states),
        };
        proof {
            let e = moves_within(delta, keep);
            assert forall|w: Seq<Seq<char>>| accepts(r@, w) == accepts(self@, w) by {
                lemma_run_sub(e, delta, self@.start, w);
                if accepts(self@, w) {
                    lemma_run_productive(delta, accept, keep, self@.start, w);
                }
            }
            assert forall|x: Seq<char>| accept.contains(x) implies ps.contains(x) by {
                assert(run(delta, x, Seq::empty()) == Some(x));
            }
            if dfa_wf(self@) {
                assert forall|x: Seq<char>| keep.contains(x) implies self@.states.contains(x) by {
                    if x != self@.start {
                        let w = choose|w: Seq<Seq<char>>|
                            #[trigger] run(delta, x, w) is Some && accept.contains(run(delta, x, w)->0);
                        if w.len() > 0 {
                            assert(delta.contains_key((x, w[0])));
                        }
                    }
                }
                assert forall|k: (Seq<char>, Seq<char>)| #[trigger] r@.delta.contains_key(k) implies r@.states.contains(k.0)
                    && r@.alphabet.contains(k.1) && r@.states.contains(r@.delta[k]) by {
                    assert(delta.contains_key(k));
                }
            }
        }
        r
    }
}
/// Whether an automaton accepts a word depends only on its start state, its
/// transitions and its accept states: two automata that agree on these
/// accept the same words (so `compute` gives the same answer on every call).
pub proof fn lemma_compute_depends_on_moves(d1: DfaView, d2: DfaView, w: Seq<Seq<char>>)
    requires
        d1.start == d2.start,
        d1.delta == d2.delta,
        d1.accept == d2.accept,
    ensures
        accepts(d1, w) == accepts(d2, w),
{
}

/// A word that runs through a well-formed automaton reads only symbols of its alphabet.
pub proof fn lemma_run_reads_alphabet(d: DfaView, q: Seq<char>, w: Seq<Seq<char>>, i: int)
    requires
        dfa_wf(d),
        0 <= i < w.len(),
        !d.alphabet.contains(w[i]),
    ensures
        run(d.delta, q, w) is None,
    decreases w.len(),
{
    if d.delta.contains_key((q, w[0])) {
        assert(d.alphabet.contains(w[0]));
        assert(w.drop_first()[i - 1] == w[i]);
        lemma_run_reads_alphabet(d, d.delta[(q, w[0])], w.drop_first(), i - 1);
    }
}

/// The entries of `ts` whose keys are in `ks`, where `keep` tells, for each
/// entry in turn, whether its key is in `ks`.
proof fn lemma_filter_step(ts: Seq<Transition>, kept: Seq<Transition>, j: int, ks: Set<(Seq<char>, Seq<char>)>, keep: bool)
    requires
        0 <= j < ts.len(),
        table(kept) == filter_keys(table(ts.take(j)), ks),
        keep == ks.contains(key_of(ts[j])),
    ensures
        keep ==> table(kept.push(ts[j])) == filter_keys(table(ts.take(j + 1)), ks),
        !keep ==> table(kept) == filter_keys(table(ts.take(j + 1)), ks),
{
    assert(ts.take(j + 1).drop_last() =~= ts.take(j));
    assert(ts.take(j + 1).last() == ts[j]);
    assert(kept.push(ts[j]).drop_last() =~= kept);
    assert(table(kept.push(ts[j])) =~= table(kept).insert(key_of(ts[j]), ts[j].to@));
    if keep {
        assert(table(kept.push(ts[j])) =~= filter_keys(table(ts.take(j + 1)), ks));
    } else {
        assert(table(kept) =~= filter_keys(table(ts.take(j + 1)), ks));
    }
}

/// The entries whose keys are not `(q, a)`.
fn without_key(ts: &Vec<Transition>, q: &str, a: &str) -> (r: Vec<Transition>)
    ensures
        table(r@) == table(ts@).remove((q@, a@)),
{
    let ghost ks = Set::new(|k: (Seq<char>, Seq<char>)| k != (q@, a@));
    let mut kept: Vec<Transition> = Vec::new();
    let mut j: usize = 0;
    proof {
        assert(ts@.take(0) =~= Seq::<Transition>::empty());
        assert(table(kept@) =~= filter_keys(table(ts@.take(0)), ks));
    }
    while j < ts.len()
        invariant
            ks == Set::new(|k: (Seq<char>, Seq<char>)| k != (q@, a@)),
            j <= ts.len(),
            table(kept@) == filter_keys(table(ts@.take(j as int)), ks),
        decreases ts.len() - j,
    {
        let keep = !(str_eq(ts[j].from.as_str(), q) && str_eq(ts[j].symbol.as_str(), a));
        proof {
            lemma_filter_step(ts@, kept@, j as int, ks, keep);
        }
        if keep {
            kept.push(copy_transition(&ts[j]));
        }
        j = j + 1;
    }
    proof {
        assert(ts@.take(j as int) =~= ts@);
        assert(filter_keys(table(ts@), ks) =~= table(ts@).remove((q@, a@)));
    }
    kept
}

/// The entries whose symbol is not `a`.
fn without_symbol(ts: &Vec<Transition>, a: &str) -> (r: Vec<Transition>)
    ensures
        table(r@) == filter_keys(table(ts@), Set::new(|k: (Seq<char>, Seq<char>)| k.1 != a@)),
{
    let ghost ks = Set::new(|k: (Seq<char>, Seq<char>)| k.1 != a@);
    let mut kept: Vec<Transition> = Vec::new();
    let mut j: usize = 0;
    proof {
        assert(ts@.take(0) =~= Seq::<Transition>::empty());
        assert(table(kept@) =~= filter_keys(table(ts@.take(0)), ks));
    }
    while j < ts.len()
        invariant
            ks == Set::new(|k: (Seq<char>, Seq<char>)| k.1 != a@),
            j <= ts.len(),
            table(kept@) == filter_keys(table(ts@.take(j as int)), ks),
        decreases ts.len() - j,
    {
        let keep = !str_eq(ts[j].symbol.as_str(), a);
        proof {
            lemma_filter_step(ts@, kept@, j as int, ks, keep);
        }
        if keep {
            kept.push(copy_transition(&ts[j]));
        }
        j = j + 1;
    }
    proof {
        assert(ts@.take(j as int) =~= ts@);
    }
    kept
}

/// The entries that neither leave nor enter `q`.
fn without_state(ts: &Vec<Transition>, q: &str) -> (r: Vec<Transition>)
    ensures
        table(r@) == filter_keys(
            table(ts@),
            Set::new(|k: (Seq<char>, Seq<char>)| k.0 != q@ && table(ts@)[k] != q@),
        ),
{
    let ghost delta = table(ts@);
    let ghost ks = Set::new(|k: (Seq<char>, Seq<char>)| k.0 != q@ && delta[k] != q@);
    let mut kept: Vec<Transition> = Vec::new();
    let mut j: usize = 0;
    proof {
        assert(ts@.take(0) =~= Seq::<Transition>::empty());
        assert(table(kept@) =~= filter_keys(table(ts@.take(0)), ks));
    }
    while j < ts.len()
        invariant
            delta == table(ts@),
            ks == Set::new(|k: (Seq<char>, Seq<char>)| k.0 != q@ && delta[k] != q@),
            j <= ts.len(),
            table(kept@) == filter_keys(table(ts@.take(j as int)), ks),
        decreases ts.len() - j,
    {
        proof {
            lemma_table_entry(ts@, j as int);
        }
        let m = find_transition(ts, ts[j].from.as_str(), ts[j].symbol.as_str()).unwrap();
        let keep = !str_eq(ts[j].from.as_str(), q) && !str_eq(ts[m].to.as_str(), q);
        proof {
            lemma_filter_step(ts@, kept@, j as int, ks, keep);
        }
        if keep {
            kept.push(copy_transition(&ts[j]));
        }
        j = j + 1;
    }
    proof {
        assert(ts@.take(j as int) =~= ts@);
    }
    kept
}

impl DeterministicFiniteAutomata {
    /// Adds the state `q`.
    pub fn add_state(&mut self, q: String)
        ensures
            final(self)@ == (DfaView { states: old(self)@.states.insert(q@), ..old(self)@ }),
    {
        add_label(&mut self.states, q);
    }

    /// Removes the state `q`, the moves that leave or enter it, and its
    /// place among the accept states.
    pub fn remove_state(&mut self, q: &str)
        ensures
            final(self)@ == (DfaView {
                states: old(self)@.states.remove(q@),
                delta: filter_keys(
                    old(self)@.delta,
                    Set::new(|k: (Seq<char>, Seq<char>)| k.0 != q@ && old(self)@.delta[k] != q@),
                ),
                accept: old(self)@.accept.remove(q@),
                ..old(self)@
            }),
    {
        self.states = remove_label(&self.states, q);
        self.transition_function = without_state(&self.transition_function, q);
        self.accept_states = remove_label(&self.accept_states, q);
    }

    /// Adds the symbol `a` to the alphabet.
    pub fn add_symbol(&mut self, a: String)
        ensures
            final(self)@ == (DfaView { alphabet: old(self)@.alphabet.insert(a@), ..old(self)@ }),
    {
        add_label(&mut self.alphabet, a);
    }

    /// Removes the symbol `a` and every move on it.
    pub fn remove_symbol(&mut self, a: &str)
        ensures
            final(self)@ == (DfaView {
                alphabet: old(self)@.alphabet.remove(a@),
                delta: filter_keys(old(self)@.delta, Set::new(|k: (Seq<char>, Seq<char>)| k.1 != a@)),
                ..old(self)@
            }),
    {
        self.alphabet = remove_label(&self.alphabet, a);
        self.transition_function = without_symbol(&self.transition_function, a);
    }

    /// Sets the move from `from` on `symbol` to `to`, replacing any earlier one.
    pub fn add_transition(&mut self, from: String, symbol: String, to: String)
        ensures
            final(self)@ == (DfaView { delta: old(self)@.delta.insert((from@, symbol@), to@), ..old(self)@ }),
    {
        let mut kept = without_key(&self.transition_function, from.as_str(), symbol.as_str());
        let ghost before = kept@;
        let t = Transition { from, symbol, to };
        kept.push(t);
        proof {
            assert(kept@.drop_last() =~= before);
            assert(table(kept@) =~= table(old(self).transition_function@).insert(key_of(t), t.to@));
        }
        self.transition_function = kept;
    }

    /// Removes the move from `from` on `symbol`, if any.
    pub fn remove_transition(&mut self, from: &str, symbol: &str)
        ensures
            final(self)@ == (DfaView { delta: old(self)@.delta.remove((from@, symbol@)), ..old(self)@ }),
    {
        self.transition_function = without_key(&self.transition_function, from, symbol);
    }

    /// Sets the start state.
    pub fn set_start_state(&mut self, q: String)
        ensures
            final(self)@ == (DfaView { start: q@, ..old(self)@ }),
    {
        self.start_state = q;
    }

    /// Makes `q` an accept state.
    pub fn add_accept_state(&mut self, q: String)
        ensures
            final(self)@ == (DfaView { accept: old(self)@.accept.insert(q@), ..old(self)@ }),
    {
        add_label(&mut self.accept_states, q);
    }

    /// Makes `q` no longer an accept state.
    pub fn remove_accept_state(&mut self, q: &str)
        ensures
            final(self)@ == (DfaView { accept: old(self)@.accept.remove(q@), ..old(self)@ }),
    {
        self.accept_states = remove_label(&self.accept_states, q);
    }
}

} // verus!
