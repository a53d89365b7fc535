//! Union and intersection of deterministic automata.
use vstd::prelude::*;
use crate::codec::{is_nested_label, lemma_plain_member};
use crate::dfa::{dfa_wf, DeterministicFiniteAutomata};
use crate::dfa::{accepts, run, DfaView};
use crate::nfa::{eclose, eps, eps_path, moves, singleton_moves, union_moves, NfaView, NondeterministicFiniteAutomata};
use crate::subset::{moves_like_subsets, nfa_accepts, simulate, subset_step};
use crate::collection::{concat_labels, set_of};
use crate::embed::{is_tag, lemma_prepared};
use crate::quotient::is_minimal;

verus! {

/// Where `w` leads from `q` in whichever of the two automata `q` belongs to.
pub open spec fn own_run(d1: DfaView, d2: DfaView, q: Seq<char>, w: Seq<Seq<char>>) -> Option<Seq<char>> {
    if d1.states.contains(q) {
        run(d1.delta, q, w)
    } else {
        run(d2.delta, q, w)
    }
}

/// The states that `w` leads to from the members of `s`.
pub open spec fn runs_from(d1: DfaView, d2: DfaView, s: Set<Seq<char>>, w: Seq<Seq<char>>) -> Set<Seq<char>> {
    Set::new(|x: Seq<char>| exists|q: Seq<char>| s.contains(q) && #[trigger] own_run(d1, d2, q, w) == Some(x))
}

/// Two well-formed automata over disjoint states, neither of which reads `&`.
pub open spec fn separate(d1: DfaView, d2: DfaView) -> bool {
    &&& crate::dfa::dfa_wf(d1)
    &&& crate::dfa::dfa_wf(d2)
    &&& d1.states.disjoint(d2.states)
    &&& !d1.alphabet.contains(eps())
    &&& !d2.alphabet.contains(eps())
}

/// `j` is the union of the two automata read as nondeterministic ones,
/// with the new start state `j.start`.
pub open spec fn is_union_of(j: NfaView, d1: DfaView, d2: DfaView) -> bool {
    &&& !d1.states.contains(j.start)
    &&& !d2.states.contains(j.start)
    &&& j.accept == d1.accept.union(d2.accept)
    &&& j.alphabet == d1.alphabet.union(d2.alphabet)
    &&& moves(j, j.start, eps()) == set![d1.start, d2.start]
    &&& forall|a: Seq<char>| a != eps() ==> #[trigger] moves(j, j.start, a) == Set::<Seq<char>>::empty()
    &&& forall|q: Seq<char>, a: Seq<char>|
        q != j.start ==> #[trigger] moves(j, q, a) == moves(NfaView { delta: singleton_moves(d1), ..j }, q, a).union(
            moves(NfaView { delta: singleton_moves(d2), ..j }, q, a),
        )
}

proof fn lemma_run_one(delta: Map<(Seq<char>, Seq<char>), Seq<char>>, q: Seq<char>, a: Seq<char>)
    ensures
        run(delta, q, seq![a]) == if delta.contains_key((q, a)) {
            Some(delta[(q, a)])
        } else {
            None::<Seq<char>>
        },
{
    let w = seq![a];
    assert(w.drop_first() =~= Seq::<Seq<char>>::empty());
    assert(w[0] == a);
    if delta.contains_key((q, a)) {
        assert(run(delta, delta[(q, a)], Seq::<Seq<char>>::empty()) == Some(delta[(q, a)]));
    }
}

proof fn lemma_own_moves(j: NfaView, d1: DfaView, d2: DfaView, q: Seq<char>, a: Seq<char>)
    requires
        separate(d1, d2),
        is_union_of(j, d1, d2),
        d1.states.contains(q) || d2.states.contains(q),
    ensures
        moves(j, q, a) == (if own_run(d1, d2, q, seq![a]) is Some {
            set![own_run(d1, d2, q, seq![a])->0]
        } else {
            Set::empty()
        }),
{
    assert(q != j.start);
    let w = seq![a];
    assert(w.drop_first() =~= Seq::<Seq<char>>::empty());
    let m1 = moves(NfaView { delta: singleton_moves(d1), ..j }, q, a);
    let m2 = moves(NfaView { delta: singleton_moves(d2), ..j }, q, a);
    assert(w[0] == a);
    lemma_run_one(d1.delta, q, a);
    lemma_run_one(d2.delta, q, a);
    if d1.states.contains(q) {
        assert(!d2.states.contains(q));
        assert(m2 == Set::<Seq<char>>::empty());
        if d1.delta.contains_key((q, a)) {
            assert(d1.alphabet.contains(a));
        }
        assert(moves(j, q, a) =~= m1.union(m2));
    } else {
        assert(m1 == Set::<Seq<char>>::empty());
        if d2.delta.contains_key((q, a)) {
            assert(d2.alphabet.contains(a));
        }
        assert(moves(j, q, a) =~= m1.union(m2));
    }
}

proof fn lemma_no_empty_moves(j: NfaView, d1: DfaView, d2: DfaView, z: Seq<char>)
    requires
        separate(d1, d2),
        is_union_of(j, d1, d2),
        d1.states.contains(z) || d2.states.contains(z),
    ensures
        eclose(j, set![z]) == set![z],
{
    lemma_own_moves(j, d1, d2, z, eps());
    let w = seq![eps()];
    if d1.states.contains(z) {
        assert(!d1.delta.contains_key((z, eps())));
    } else {
        assert(!d2.delta.contains_key((z, eps())));
    }
    assert(moves(j, z, eps()) =~= Set::<Seq<char>>::empty());
    assert forall|y: Seq<char>| eclose(j, set![z]).contains(y) <==> set![z].contains(y) by {
        if eclose(j, set![z]).contains(y) {
            let p = choose|p: Seq<Seq<char>>| #[trigger] eps_path(j, p) && set![z].contains(p[0]) && p.last() == y;
            if p.len() > 1 {
                assert(moves(j, p[0], eps()).contains(p[1]));
            }
        }
        if y == z {
            assert(eps_path(j, seq![z]));
        }
    }
    assert(eclose(j, set![z]) =~= set![z]);
}

proof fn lemma_runs_stay(d1: DfaView, d2: DfaView, q: Seq<char>, w: Seq<Seq<char>>)
    requires
        separate(d1, d2),
        d1.states.contains(q) || d2.states.contains(q),
    ensures
        own_run(d1, d2, q, w) is Some ==> (d1.states.contains(q) ==> d1.states.contains(own_run(d1, d2, q, w)->0))
            && (!d1.states.contains(q) ==> d2.states.contains(own_run(d1, d2, q, w)->0)),
{
    if d1.states.contains(q) {
        crate::dfa::lemma_run_stays(d1, q, w);
    } else {
        crate::dfa::lemma_run_stays(d2, q, w);
    }
}

/// From states of the two automata, simulating the union follows each
/// state in its own automaton.
proof fn lemma_union_simulate(j: NfaView, d1: DfaView, d2: DfaView, s: Set<Seq<char>>, w: Seq<Seq<char>>)
    requires
        separate(d1, d2),
        is_union_of(j, d1, d2),
        forall|q: Seq<char>| s.contains(q) ==> d1.states.contains(q) || d2.states.contains(q),
        forall|i: int| 0 <= i < w.len() ==> #[trigger] w[i] != eps(),
    ensures
        simulate(j, s, w) == runs_from(d1, d2, s, w),
    decreases w.len(),
{
    if w.len() == 0 {
        assert forall|x: Seq<char>| runs_from(d1, d2, s, w).contains(x) <==> s.contains(x) by {
            if s.contains(x) {
                assert(own_run(d1, d2, x, w) == Some(x));
            }
        }
        assert(runs_from(d1, d2, s, w) =~= s);
    } else {
        let a = w[0];
        let rest = w.drop_first();
        let t = subset_step(j, s, a);
        let one = seq![a];
        assert(one.drop_first() =~= Seq::<Seq<char>>::empty());
        // One step of the simulation is one step in each automaton.
        assert forall|y: Seq<char>| t.contains(y) <==> exists|q: Seq<char>| s.contains(q) && #[trigger] own_run(d1, d2, q, one) == Some(y) by {
            if t.contains(y) {
                let (x, z) = choose|x: Seq<char>, z: Seq<char>|
                    s.contains(x) && #[trigger] moves(j, x, a).contains(z) && #[trigger] eclose(j, set![z]).contains(y);
                lemma_own_moves(j, d1, d2, x, a);
                lemma_runs_stay(d1, d2, x, one);
                lemma_no_empty_moves(j, d1, d2, z);
                assert(own_run(d1, d2, x, one) == Some(y));
            }
            if exists|q: Seq<char>| s.contains(q) && #[trigger] own_run(d1, d2, q, one) == Some(y) {
                let q = choose|q: Seq<char>| s.contains(q) && #[trigger] own_run(d1, d2, q, one) == Some(y);
                lemma_own_moves(j, d1, d2, q, a);
                lemma_runs_stay(d1, d2, q, one);
                lemma_no_empty_moves(j, d1, d2, y);
                assert(eps_path(j, seq![y]));
                assert(eclose(j, set![y]).contains(y));
                assert(moves(j, q, a).contains(y));
            }
        }
        assert forall|y: Seq<char>| t.contains(y) implies d1.states.contains(y) || d2.states.contains(y) by {
            let q = choose|q: Seq<char>| s.contains(q) && #[trigger] own_run(d1, d2, q, one) == Some(y);
            lemma_runs_stay(d1, d2, q, one);
        }
        assert forall|i: int| 0 <= i < rest.len() implies #[trigger] rest[i] != eps() by {
            assert(rest[i] == w[i + 1]);
        }
        lemma_union_simulate(j, d1, d2, t, rest);
        assert forall|x: Seq<char>| runs_from(d1, d2, t, rest).contains(x) <==> runs_from(d1, d2, s, w).contains(x) by {
            if runs_from(d1, d2, t, rest).contains(x) {
                let y = choose|y: Seq<char>| t.contains(y) && #[trigger] own_run(d1, d2, y, rest) == Some(x);
                let q = choose|q: Seq<char>| s.contains(q) && #[trigger] own_run(d1, d2, q, one) == Some(y);
                lemma_runs_stay(d1, d2, q, one);
                assert(one[0] == a);
                assert(w[0] == a);
                lemma_run_one(d1.delta, q, a);
                lemma_run_one(d2.delta, q, a);
                if d1.states.contains(q) {
                    assert(d1.delta.contains_key((q, a)) && d1.delta[(q, a)] == y);
                    assert(run(d1.delta, q, w) == run(d1.delta, y, rest));
                } else {
                    assert(d2.delta.contains_key((q, a)) && d2.delta[(q, a)] == y);
                    assert(run(d2.delta, q, w) == run(d2.delta, y, rest));
                }
                assert(own_run(d1, d2, q, w) == Some(x));
            }
            if runs_from(d1, d2, s, w).contains(x) {
                let q = choose|q: Seq<char>| s.contains(q) && #[trigger] own_run(d1, d2, q, w) == Some(x);
                assert(one[0] == a);
                assert(w[0] == a);
                if d1.states.contains(q) {
                    assert(d1.delta.contains_key((q, a)));
                    let y = d1.delta[(q, a)];
                    assert(run(d1.delta, y, Seq::<Seq<char>>::empty()) == Some(y));
                    assert(own_run(d1, d2, q, one) == Some(y));
                    lemma_runs_stay(d1, d2, q, one);
                    assert(own_run(d1, d2, y, rest) == Some(x));
                    assert(t.contains(y));
                } else {
                    assert(d2.delta.contains_key((q, a)));
                    let y = d2.delta[(q, a)];
                    assert(run(d2.delta, y, Seq::<Seq<char>>::empty()) == Some(y));
                    assert(own_run(d1, d2, q, one) == Some(y));
                    lemma_runs_stay(d1, d2, q, one);
                    assert(own_run(d1, d2, y, rest) == Some(x));
                    assert(t.contains(y));
                }
            }
        }
        assert(runs_from(d1, d2, t, rest) =~= runs_from(d1, d2, s, w));
    }
}

/// The union of two automata over disjoint states, read with the
/// simulation of nondeterministic automata, accepts exactly the words that
/// either accepts.
pub proof fn lemma_union_language(j: NfaView, d1: DfaView, d2: DfaView, w: Seq<Seq<char>>)
    requires
        separate(d1, d2),
        is_union_of(j, d1, d2),
    ensures
        nfa_accepts(j, w) == (accepts(d1, w) || accepts(d2, w)),
{
    let f = j.start;
    let s1 = d1.start;
    let s2 = d2.start;
    let both = set![s1, s2];
    let s0 = eclose(j, set![f]);
    lemma_no_empty_moves(j, d1, d2, s1);
    lemma_no_empty_moves(j, d1, d2, s2);
    lemma_own_moves(j, d1, d2, s1, eps());
    lemma_own_moves(j, d1, d2, s2, eps());
    assert(!d1.delta.contains_key((s1, eps())));
    assert(!d2.delta.contains_key((s2, eps())));
    assert(seq![eps()].drop_first() =~= Seq::<Seq<char>>::empty());
    assert(moves(j, s1, eps()) =~= Set::<Seq<char>>::empty());
    assert(moves(j, s2, eps()) =~= Set::<Seq<char>>::empty());
    // The closure of the new start state is the new start state and both start states.
    assert forall|y: Seq<char>| s0.contains(y) <==> both.insert(f).contains(y) by {
        if s0.contains(y) {
            let p = choose|p: Seq<Seq<char>>| #[trigger] eps_path(j, p) && set![f].contains(p[0]) && p.last() == y;
            if p.len() > 1 {
                assert(moves(j, p[0], eps()).contains(p[1]));
                if p.len() > 2 {
                    assert(moves(j, p[1], eps()).contains(p[2]));
                }
            }
        }
        if y == f {
            assert(eps_path(j, seq![f]));
        }
        if y == s1 || y == s2 {
            let p = seq![f, y];
            assert(moves(j, p[0], eps()).contains(p[1]));
            assert(eps_path(j, p));
        }
    }
    assert(s0 =~= both.insert(f));
    if forall|i: int| 0 <= i < w.len() ==> j.alphabet.contains(#[trigger] w[i]) {
        assert forall|i: int| 0 <= i < w.len() implies #[trigger] w[i] != eps() by {
            assert(j.alphabet.contains(w[i]));
        }
        assert(forall|q: Seq<char>| both.contains(q) ==> d1.states.contains(q) || d2.states.contains(q));
        lemma_union_simulate(j, d1, d2, both, w);
        let sim = simulate(j, s0, w);
        lemma_runs_stay(d1, d2, s1, w);
        lemma_runs_stay(d1, d2, s2, w);
        assert(!d2.states.contains(s1));
        assert(!d1.states.contains(s2));
        if w.len() == 0 {
            assert(sim == s0);
            assert(!d1.accept.contains(f) && !d2.accept.contains(f));
            if nfa_accepts(j, w) {
                let x = choose|x: Seq<char>| sim.contains(x) && j.accept.contains(x);
                if x == s1 {
                    assert(!d2.accept.contains(s1));
                } else {
                    assert(x == s2);
                    assert(!d1.accept.contains(s2));
                }
            }
            if accepts(d1, w) {
                assert(sim.contains(s1) && j.accept.contains(s1));
            }
            if accepts(d2, w) {
                assert(sim.contains(s2) && j.accept.contains(s2));
            }
        } else {
            let a = w[0];
            assert(a != eps());
            assert(subset_step(j, s0, a) =~= subset_step(j, both, a)) by {
                assert forall|y: Seq<char>| subset_step(j, s0, a).contains(y) implies subset_step(j, both, a).contains(y) by {
                    let (x, z) = choose|x: Seq<char>, z: Seq<char>|
                        s0.contains(x) && #[trigger] moves(j, x, a).contains(z) && #[trigger] eclose(j, set![z]).contains(y);
                    assert(x != f);
                }
            }
            assert(sim == simulate(j, both, w));
            assert(sim == runs_from(d1, d2, both, w));
            if accepts(d1, w) {
                let x = run(d1.delta, s1, w)->0;
                assert(own_run(d1, d2, s1, w) == Some(x));
                assert(sim.contains(x) && j.accept.contains(x));
            }
            if accepts(d2, w) {
                let x = run(d2.delta, s2, w)->0;
                assert(own_run(d1, d2, s2, w) == Some(x));
                assert(sim.contains(x) && j.accept.contains(x));
            }
            if nfa_accepts(j, w) {
                let x = choose|x: Seq<char>| sim.contains(x) && j.accept.contains(x);
                let q = choose|q: Seq<char>| both.contains(q) && #[trigger] own_run(d1, d2, q, w) == Some(x);
                if q == s1 {
                    assert(d1.states.contains(x));
                    assert(!d2.accept.contains(x));
                } else {
                    assert(d2.states.contains(x));
                    assert(!d1.accept.contains(x));
                }
            }
        }
    } else {
        let i = choose|i: int| 0 <= i < w.len() && !j.alphabet.contains(#[trigger] w[i]);
        crate::dfa::lemma_run_reads_alphabet(d1, s1, w, i);
        crate::dfa::lemma_run_reads_alphabet(d2, s2, w, i);
    }
}



/// Every state has a move on every symbol of the alphabet.
pub open spec fn is_total(d: DfaView) -> bool {
    forall|q: Seq<char>, a: Seq<char>|
        d.states.contains(q) && d.alphabet.contains(a) ==> #[trigger] d.delta.contains_key((q, a))
}

/// In a total automaton no state lacks a move that another has, so the
/// merging of equivalent states describes it by its classes.
pub proof fn lemma_total_live_gaps(d: DfaView)
    requires
        crate::dfa::dfa_wf(d),
        is_total(d),
    ensures
        crate::quotient::live_gaps(d),
{
    assert forall|p: Seq<char>, q: Seq<char>, a: Seq<char>|
        #![trigger d.delta.contains_key((p, a)), d.delta.contains_key((q, a))]
        d.states.contains(p) && d.states.contains(q) && !d.delta.contains_key((p, a)) && d.delta.contains_key((q, a))
            implies exists|w: Seq<Seq<char>>| #[trigger] crate::quotient::accepts_from(d, d.delta[(q, a)], w) by {
        assert(d.alphabet.contains(a));
        assert(d.delta.contains_key((p, a)));
    }
}

/// Every symbol of `w` is in the alphabet.
pub open spec fn over(alphabet: Set<Seq<char>>, w: Seq<Seq<char>>) -> bool {
    forall|i: int| 0 <= i < w.len() ==> alphabet.contains(#[trigger] w[i])
}

proof fn lemma_run_total(d: DfaView, q: Seq<char>, w: Seq<Seq<char>>)
    requires
        crate::dfa::dfa_wf(d),
        is_total(d),
        d.states.contains(q),
        over(d.alphabet, w),
    ensures
        run(d.delta, q, w) is Some,
    decreases w.len(),
{
    if w.len() > 0 {
        assert(d.alphabet.contains(w[0]));
        assert(d.delta.contains_key((q, w[0])));
        assert(over(d.alphabet, w.drop_first())) by {
            assert forall|i: int| 0 <= i < w.drop_first().len() implies d.alphabet.contains(#[trigger] w.drop_first()[i]) by {
                assert(w.drop_first()[i] == w[i + 1]);
            }
        }
        lemma_run_total(d, d.delta[(q, w[0])], w.drop_first());
    }
}

/// On a total automaton, the complement accepts exactly the words over the
/// alphabet that the automaton rejects.
pub proof fn lemma_complement_total(d: DfaView, c: DfaView, w: Seq<Seq<char>>)
    requires
        crate::dfa::dfa_wf(d),
        is_total(d),
        c == (DfaView { accept: d.states.difference(d.accept), ..d }),
    ensures
        accepts(c, w) == (over(d.alphabet, w) && !accepts(d, w)),
{
    if over(d.alphabet, w) {
        lemma_run_total(d, d.start, w);
        crate::dfa::lemma_run_stays(d, d.start, w);
    } else {
        let i = choose|i: int| 0 <= i < w.len() && !d.alphabet.contains(#[trigger] w[i]);
        crate::dfa::lemma_run_reads_alphabet(d, d.start, w, i);
    }
}

/// The union of the embeddings of two automata is their union in the sense of `is_union_of`.
proof fn lemma_joined_is_union(j: NfaView, l: NfaView, r: NfaView, d1: DfaView, d2: DfaView)
    requires
        l.states == d1.states,
        l.alphabet == d1.alphabet,
        l.start == d1.start,
        l.accept == d1.accept,
        l.delta == singleton_moves(d1),
        r.states == d2.states,
        r.alphabet == d2.alphabet,
        r.start == d2.start,
        r.accept == d2.accept,
        r.delta == singleton_moves(d2),
        !l.states.contains(j.start),
        !r.states.contains(j.start),
        j.alphabet == l.alphabet.union(r.alphabet),
        j.accept == l.accept.union(r.accept),
        moves(j, j.start, eps()) == set![l.start, r.start],
        forall|a: Seq<char>| a != eps() ==> #[trigger] moves(j, j.start, a) == Set::<Seq<char>>::empty(),
        forall|q: Seq<char>, a: Seq<char>| q != j.start ==> #[trigger] moves(j, q, a) == union_moves(l, r, q, a),
    ensures
        is_union_of(j, d1, d2),
{
    assert forall|q: Seq<char>, a: Seq<char>| q != j.start implies #[trigger] moves(j, q, a) == moves(
        NfaView { delta: singleton_moves(d1), ..j },
        q,
        a,
    ).union(moves(NfaView { delta: singleton_moves(d2), ..j }, q, a)) by {
        assert(moves(j, q, a) == union_moves(l, r, q, a));
    }
}

/// The tags that keep the states of the two operands apart.
fn tags() -> (r: (String, String))
    ensures
        is_tag(r.0@),
        is_tag(r.1@),
        r.0@[0] != r.1@[0],
{
    proof {
        reveal_strlit("1");
        reveal_strlit("2");
    }
    (String::from_str("1"), String::from_str("2"))
}

impl DeterministicFiniteAutomata {
    /// The union: both automata, renamed apart and completed over the joint
    /// alphabet, read as nondeterministic ones, joined by a new start state,
    /// made deterministic by the subset construction and minimized.
    pub fn union(&self, other: &Self) -> (r: Self)
        requires
            dfa_wf(self@),
            dfa_wf(other@),
            forall|q: Seq<char>| self@.states.contains(q) ==> is_nested_label(q),
            forall|q: Seq<char>| other@.states.contains(q) ==> is_nested_label(q),
        ensures
            r@.alphabet == self@.alphabet.union(other@.alphabet),
            is_minimal(r@),
            !self@.alphabet.contains(eps()) && !other@.alphabet.contains(eps()) ==> forall|w: Seq<Seq<char>>|
                accepts(r@, w) == (accepts(self@, w) || accepts(other@, w)),
    {
        let sigma = concat_labels(&self.alphabet, &other.alphabet);
        let (t1, t2) = tags();
        let e1 = self.prepared(t1.as_str(), &sigma);
        let e2 = other.prepared(t2.as_str(), &sigma);
        proof {
            lemma_prepared(e1@, self@, t1@, set_of(sigma@));
            lemma_prepared(e2@, other@, t2@, set_of(sigma@));
        }
        let left = NondeterministicFiniteAutomata::from_dfa(&e1);
        let right = NondeterministicFiniteAutomata::from_dfa(&e2);
        let joined = left.union(&right);
        proof {
            lemma_plain_member(joined@.start);
        }
        let d = DeterministicFiniteAutomata::from_nfa(&joined);
        proof {
            crate::codec::lemma_members_nested(d@.states);
        }
        let r = d.minimize();
        proof {
            if !self@.alphabet.contains(eps()) && !other@.alphabet.contains(eps()) {
                lemma_prepared_separate(e1@, e2@, t1@, t2@);
                lemma_joined_is_union(joined@, left@, right@, e1@, e2@);
                assert forall|w: Seq<Seq<char>>| accepts(r@, w) == (accepts(self@, w) || accepts(other@, w)) by {
                    lemma_union_language(joined@, e1@, e2@, w);
                    assert(accepts(e1@, w) == accepts(self@, w));
                    assert(accepts(e2@, w) == accepts(other@, w));
                }
            }
        }
        r
    }

    /// The intersection, by De Morgan's law: both automata are renamed apart
    /// and completed over the joint alphabet with a rejecting sink, so that
    /// complementing them is sound; then the complement of the union of the
    /// complements, the union taken through the nondeterministic union and
    /// the subset construction, and the result minimized.
    pub fn intersection(&self, other: &Self) -> (r: Self)
        requires
            dfa_wf(self@),
            dfa_wf(other@),
            forall|q: Seq<char>| self@.states.contains(q) ==> is_nested_label(q),
            forall|q: Seq<char>| other@.states.contains(q) ==> is_nested_label(q),
        ensures
            r@.alphabet == self@.alphabet.union(other@.alphabet),
            is_minimal(r@),
            !self@.alphabet.contains(eps()) && !other@.alphabet.contains(eps()) ==> forall|w: Seq<Seq<char>>|
                accepts(r@, w) == (accepts(self@, w) && accepts(other@, w)),
    {
        let sigma = concat_labels(&self.alphabet, &other.alphabet);
        let (t1, t2) = tags();
        let e1 = self.prepared(t1.as_str(), &sigma);
        let e2 = other.prepared(t2.as_str(), &sigma);
        proof {
            lemma_prepared(e1@, self@, t1@, set_of(sigma@));
            lemma_prepared(e2@, other@, t2@, set_of(sigma@));
        }
        let left_complement = e1.complement();
        let right_complement = e2.complement();
        let left = NondeterministicFiniteAutomata::from_dfa(&left_complement);
        let right = NondeterministicFiniteAutomata::from_dfa(&right_complement);
        let joined = left.union(&right);
        proof {
            lemma_plain_member(joined@.start);
        }
        let d = DeterministicFiniteAutomata::from_nfa(&joined);
        let flipped = d.complement();
        proof {
            crate::codec::lemma_members_nested(d@.states);
        }
        let r = flipped.minimize();
        proof {
            if !self@.alphabet.contains(eps()) && !other@.alphabet.contains(eps()) {
                let c1 = left_complement@;
                let c2 = right_complement@;
                lemma_prepared_separate(e1@, e2@, t1@, t2@);
                assert(separate(c1, c2));
                lemma_joined_is_union(joined@, left@, right@, c1, c2);
                assert(is_total(d@)) by {
                    assert forall|q: Seq<char>, a: Seq<char>| d@.states.contains(q) && d@.alphabet.contains(a) implies #[trigger] d@.delta.contains_key((q, a)) by {
                        let s = choose|s: Set<Seq<char>>| s.subset_of(joined@.states) && q == crate::codec::encode(s);
                        assert(moves_like_subsets(d@, joined@, s, a));
                    }
                }
                assert forall|w: Seq<Seq<char>>| accepts(r@, w) == (accepts(self@, w) && accepts(other@, w)) by {
                    lemma_union_language(joined@, c1, c2, w);
                    lemma_complement_total(d@, flipped@, w);
                    lemma_complement_total(e1@, c1, w);
                    lemma_complement_total(e2@, c2, w);
                    assert(accepts(e1@, w) == accepts(self@, w));
                    assert(accepts(e2@, w) == accepts(other@, w));
                    if accepts(e1@, w) && !over(e1@.alphabet, w) {
                        let i = choose|i: int| 0 <= i < w.len() && !e1@.alphabet.contains(#[trigger] w[i]);
                        crate::dfa::lemma_run_reads_alphabet(e1@, e1@.start, w, i);
                    }
                }
            }
        }
        r
    }
}

/// Two prepared automata with different tags over the same alphabet without
/// `&` are separate.
proof fn lemma_prepared_separate(e1: DfaView, e2: DfaView, t1: Seq<char>, t2: Seq<char>)
    requires
        dfa_wf(e1),
        dfa_wf(e2),
        e1.alphabet == e2.alphabet,
        !e1.alphabet.contains(eps()),
        t1[0] != t2[0],
        forall|q: Seq<char>| #[trigger] e1.states.contains(q) ==> q[0] == t1[0],
        forall|q: Seq<char>| #[trigger] e2.states.contains(q) ==> q[0] == t2[0],
    ensures
        separate(e1, e2),
{
    assert(e1.states.disjoint(e2.states));
}

} // verus!
