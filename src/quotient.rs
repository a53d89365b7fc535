//! Merging the states of a deterministic automaton that no word tells apart.
use vstd::prelude::*;
use crate::codec::{encode, is_member_label, is_nested_label, labels, lemma_encode_injective_nonempty, set_to_state};
use crate::collection::{contains_label, copy_labels, distinct_labels, index_of, lemma_set_of_index, set_of};
use crate::dfa::{
    accepts, dfa_wf, find_transition, key_of, lemma_run_productive, lemma_run_reachable, lemma_run_sub,
    lemma_table_key, moves_from, moves_within, productive, reachable_from, run, table, DeterministicFiniteAutomata,
    DfaView, Transition,
};
use crate::partition::{
    behaves_differently, distinguishable, gaps_live, iaccepts, irun, is_congruence, tells_apart, lemma_congruence_same_words, live, rows_agree,
    stable_partition, table_ok, target_class, valid_word,
};

verus! {

/// Whether reading `w` from `q` ends in an accept state.
pub open spec fn accepts_from(d: DfaView, q: Seq<char>, w: Seq<Seq<char>>) -> bool {
    match run(d.delta, q, w) {
        Some(x) => d.accept.contains(x),
        None => false,
    }
}

/// `p` and `q` accept the same words.
pub open spec fn equivalent(d: DfaView, p: Seq<char>, q: Seq<char>) -> bool {
    forall|w: Seq<Seq<char>>| #[trigger] accepts_from(d, p, w) == accepts_from(d, q, w)
}

/// The states that accept the same words as `q`.
pub open spec fn eq_class(d: DfaView, q: Seq<char>) -> Set<Seq<char>> {
    Set::new(|p: Seq<char>| d.states.contains(p) && equivalent(d, p, q))
}

/// Where one state has no move on a symbol and another has one, that move
/// leads to a state from which some word is accepted. Total automata and
/// automata without dead states have this.
pub open spec fn live_gaps(d: DfaView) -> bool {
    forall|p: Seq<char>, q: Seq<char>, a: Seq<char>|
        #![trigger d.delta.contains_key((p, a)), d.delta.contains_key((q, a))]
        d.states.contains(p) && d.states.contains(q) && !d.delta.contains_key((p, a)) && d.delta.contains_key((q, a))
            ==> exists|w: Seq<Seq<char>>| #[trigger] accepts_from(d, d.delta[(q, a)], w)
}

/// From the class of `p` on `a`, `r` moves exactly when `d` moves from `p`,
/// and then to the class of where `d` goes.
pub open spec fn class_moves(r: DfaView, d: DfaView, p: Seq<char>, a: Seq<char>) -> bool {
    d.states.contains(p) ==> r.delta.contains_key((encode(eq_class(d, p)), a)) == d.delta.contains_key((p, a))
        && (d.delta.contains_key((p, a)) ==> r.delta[(encode(eq_class(d, p)), a)] == encode(
        eq_class(d, d.delta[(p, a)]),
    ))
}

/// `r` is `d` with each class of states that accept the same words merged
/// into one state named by the class's composite name.
pub open spec fn merged_over_classes(r: DfaView, d: DfaView) -> bool {
    &&& r.alphabet == d.alphabet
    &&& r.states == Set::new(|x: Seq<char>| exists|p: Seq<char>| d.states.contains(p) && x == encode(eq_class(d, p)))
    &&& r.start == encode(eq_class(d, d.start))
    &&& r.accept == Set::new(|x: Seq<char>| exists|p: Seq<char>| d.accept.contains(p) && x == encode(eq_class(d, p)))
    &&& forall|p: Seq<char>, a: Seq<char>| #[trigger] class_moves(r, d, p, a)
}

/// Reading `w` from `p` and from `q` alike: both read it or neither does,
/// and both accept it or neither does.
pub open spec fn same_reading(d: DfaView, p: Seq<char>, q: Seq<char>, w: Seq<Seq<char>>) -> bool {
    (run(d.delta, p, w) is Some) == (run(d.delta, q, w) is Some) && accepts_from(d, p, w) == accepts_from(d, q, w)
}

/// `p` and `q` read every word alike.
pub open spec fn reads_alike(d: DfaView, p: Seq<char>, q: Seq<char>) -> bool {
    forall|w: Seq<Seq<char>>| #[trigger] same_reading(d, p, q, w)
}

/// The states that read every word as `q` does.
pub open spec fn alike_class(d: DfaView, q: Seq<char>) -> Set<Seq<char>> {
    Set::new(|p: Seq<char>| d.states.contains(p) && reads_alike(d, p, q))
}

/// From the class of `p` on `a`, `r` moves exactly when `d` moves from `p`,
/// and then to the class of where `d` goes.
pub open spec fn reading_moves(r: DfaView, d: DfaView, p: Seq<char>, a: Seq<char>) -> bool {
    d.states.contains(p) ==> r.delta.contains_key((encode(alike_class(d, p)), a)) == d.delta.contains_key((p, a))
        && (d.delta.contains_key((p, a)) ==> r.delta[(encode(alike_class(d, p)), a)] == encode(
        alike_class(d, d.delta[(p, a)]),
    ))
}

/// `r` is `d` with each class of states that read every word alike merged
/// into one state named by the class's composite name: the coarsest
/// partition that respects acceptance and is stable under the moves.
pub open spec fn merged_over_readings(r: DfaView, d: DfaView) -> bool {
    &&& r.alphabet == d.alphabet
    &&& r.states == Set::new(|x: Seq<char>| exists|p: Seq<char>| d.states.contains(p) && x == encode(alike_class(d, p)))
    &&& r.start == encode(alike_class(d, d.start))
    &&& r.accept == Set::new(|x: Seq<char>| exists|p: Seq<char>| d.accept.contains(p) && x == encode(alike_class(d, p)))
    &&& forall|p: Seq<char>, a: Seq<char>| #[trigger] reading_moves(r, d, p, a)
}

/// The word spelled by symbol indices.
pub open spec fn sym_word(sy: Seq<Seq<char>>, w: Seq<int>) -> Seq<Seq<char>> {
    Seq::new(w.len(), |x: int| sy[w[x]])
}

proof fn lemma_idx_accepts(
    d: DfaView,
    q: Seq<Seq<char>>,
    sy: Seq<Seq<char>>,
    tgt: Seq<Vec<Option<usize>>>,
    acc: Seq<bool>,
    i: int,
    w: Seq<int>,
)
    requires
        table_ok(tgt, q.len(), sy.len()),
        rows_match(d.delta, q, sy, tgt),
        acc.len() == q.len(),
        forall|x: int| 0 <= x < q.len() ==> acc[x] == d.accept.contains(#[trigger] q[x]),
        0 <= i < q.len(),
        valid_word(w, sy.len()),
    ensures
        accepts_from(d, q[i], sym_word(sy, w)) == iaccepts(acc, tgt, i, w),
        (run(d.delta, q[i], sym_word(sy, w)) is Some) == (irun(tgt, i, w) is Some),
    decreases w.len(),
{
    let v = sym_word(sy, w);
    if w.len() == 0 {
        assert(run(d.delta, q[i], v) == Some(q[i]));
    } else {
        let a = w[0];
        assert(0 <= a < sy.len());
        assert(v[0] == sy[a]);
        let rest = w.drop_first();
        assert(v.drop_first() =~= sym_word(sy, rest));
        assert(valid_word(rest, sy.len())) by {
            assert forall|x: int| 0 <= x < rest.len() implies 0 <= #[trigger] rest[x] < sy.len() by {
                assert(rest[x] == w[x + 1]);
            }
        }
        match tgt[i]@[a] {
            Some(t) => {
                lemma_idx_accepts(d, q, sy, tgt, acc, t as int, rest);
            },
            None => {},
        }
    }
}

proof fn lemma_outside_rejects(
    d: DfaView,
    q: Seq<Seq<char>>,
    sy: Seq<Seq<char>>,
    tgt: Seq<Vec<Option<usize>>>,
    i: int,
    w: Seq<Seq<char>>,
)
    requires
        table_ok(tgt, q.len(), sy.len()),
        rows_match(d.delta, q, sy, tgt),
        symbols_listed(d.delta, q, sy),
        0 <= i < q.len(),
        !(forall|x: int| 0 <= x < w.len() ==> sy.contains(#[trigger] w[x])),
    ensures
        !accepts_from(d, q[i], w),
        run(d.delta, q[i], w) is None,
    decreases w.len(),
{
    let b = w[0];
    if d.delta.contains_key((q[i], b)) {
        let a = choose|a: int| 0 <= a < sy.len() && sy[a] == b;
        let t = tgt[i]@[a]->0 as int;
        assert(tgt[i]@[a] is Some);
        let rest = w.drop_first();
        let x = choose|x: int| 0 <= x < w.len() && !sy.contains(#[trigger] w[x]);
        assert(x != 0);
        assert(!sy.contains(rest[x - 1]));
        lemma_outside_rejects(d, q, sy, tgt, t, rest);
    }
}

proof fn lemma_word_indices(sy: Seq<Seq<char>>, w: Seq<Seq<char>>) -> (v: Seq<int>)
    requires
        forall|x: int| 0 <= x < w.len() ==> sy.contains(#[trigger] w[x]),
    ensures
        valid_word(v, sy.len()),
        sym_word(sy, v) == w,
{
    let v = Seq::new(w.len(), |x: int| choose|a: int| 0 <= a < sy.len() && sy[a] == w[x]);
    assert forall|x: int| 0 <= x < v.len() implies 0 <= #[trigger] v[x] < sy.len() && sy[v[x]] == w[x] by {
        assert(sy.contains(w[x]));
    }
    assert(sym_word(sy, v) =~= w);
    v
}

/// Two indexed states accept the same words exactly when no index word tells them apart.
proof fn lemma_equivalent_index(
    d: DfaView,
    q: Seq<Seq<char>>,
    sy: Seq<Seq<char>>,
    tgt: Seq<Vec<Option<usize>>>,
    acc: Seq<bool>,
    i: int,
    j: int,
)
    requires
        table_ok(tgt, q.len(), sy.len()),
        rows_match(d.delta, q, sy, tgt),
        symbols_listed(d.delta, q, sy),
        acc.len() == q.len(),
        forall|x: int| 0 <= x < q.len() ==> acc[x] == d.accept.contains(#[trigger] q[x]),
        0 <= i < q.len(),
        0 <= j < q.len(),
    ensures
        equivalent(d, q[i], q[j]) == !distinguishable(acc, tgt, sy.len(), i, j),
{
    if distinguishable(acc, tgt, sy.len(), i, j) {
        let w = choose|w: Seq<int>| valid_word(w, sy.len()) && #[trigger] iaccepts(acc, tgt, i, w) != iaccepts(acc, tgt, j, w);
        lemma_idx_accepts(d, q, sy, tgt, acc, i, w);
        lemma_idx_accepts(d, q, sy, tgt, acc, j, w);
        assert(accepts_from(d, q[i], sym_word(sy, w)) != accepts_from(d, q[j], sym_word(sy, w)));
    } else {
        assert forall|w: Seq<Seq<char>>| #[trigger] accepts_from(d, q[i], w) == accepts_from(d, q[j], w) by {
            if forall|x: int| 0 <= x < w.len() ==> sy.contains(#[trigger] w[x]) {
                let v = lemma_word_indices(sy, w);
                lemma_idx_accepts(d, q, sy, tgt, acc, i, v);
                lemma_idx_accepts(d, q, sy, tgt, acc, j, v);
                assert(!(iaccepts(acc, tgt, i, v) != iaccepts(acc, tgt, j, v)));
            } else {
                lemma_outside_rejects(d, q, sy, tgt, i, w);
                lemma_outside_rejects(d, q, sy, tgt, j, w);
            }
        }
    }
}

/// Two indexed states read every word alike exactly when no index word tells them apart.
proof fn lemma_alike_index(
    d: DfaView,
    q: Seq<Seq<char>>,
    sy: Seq<Seq<char>>,
    tgt: Seq<Vec<Option<usize>>>,
    acc: Seq<bool>,
    i: int,
    j: int,
)
    requires
        table_ok(tgt, q.len(), sy.len()),
        rows_match(d.delta, q, sy, tgt),
        symbols_listed(d.delta, q, sy),
        acc.len() == q.len(),
        forall|x: int| 0 <= x < q.len() ==> acc[x] == d.accept.contains(#[trigger] q[x]),
        0 <= i < q.len(),
        0 <= j < q.len(),
    ensures
        reads_alike(d, q[i], q[j]) == !tells_apart(acc, tgt, sy.len(), i, j),
{
    if tells_apart(acc, tgt, sy.len(), i, j) {
        let w = choose|w: Seq<int>| valid_word(w, sy.len()) && #[trigger] behaves_differently(acc, tgt, i, j, w);
        lemma_idx_accepts(d, q, sy, tgt, acc, i, w);
        lemma_idx_accepts(d, q, sy, tgt, acc, j, w);
        assert(!same_reading(d, q[i], q[j], sym_word(sy, w)));
    } else {
        assert forall|w: Seq<Seq<char>>| #[trigger] same_reading(d, q[i], q[j], w) by {
            if forall|x: int| 0 <= x < w.len() ==> sy.contains(#[trigger] w[x]) {
                let v = lemma_word_indices(sy, w);
                lemma_idx_accepts(d, q, sy, tgt, acc, i, v);
                lemma_idx_accepts(d, q, sy, tgt, acc, j, v);
                assert(!behaves_differently(acc, tgt, i, j, v));
            } else {
                lemma_outside_rejects(d, q, sy, tgt, i, w);
                lemma_outside_rejects(d, q, sy, tgt, j, w);
            }
        }
    }
}

/// The labels of the indices that carry class `c`.
pub open spec fn class_set(qs: Seq<Seq<char>>, cls: Seq<usize>, c: int) -> Set<Seq<char>> {
    Set::new(|x: Seq<char>| exists|j: int| 0 <= j < qs.len() && cls[j] == c && qs[j] == x)
}

/// The indexed table agrees with the moves of `delta`.
pub open spec fn rows_match(
    delta: Map<(Seq<char>, Seq<char>), Seq<char>>,
    qs: Seq<Seq<char>>,
    syms: Seq<Seq<char>>,
    tgt: Seq<Vec<Option<usize>>>,
) -> bool {
    forall|i: int, a: int|
        0 <= i < qs.len() && 0 <= a < syms.len() ==> match #[trigger] tgt[i]@[a] {
            Some(t) => delta.contains_key((qs[i], syms[a])) && delta[(qs[i], syms[a])] == qs[t as int],
            None => !delta.contains_key((qs[i], syms[a])),
        }
}

/// Every move of `delta` from a listed state reads a listed symbol.
pub open spec fn symbols_listed(
    delta: Map<(Seq<char>, Seq<char>), Seq<char>>,
    qs: Seq<Seq<char>>,
    syms: Seq<Seq<char>>,
) -> bool {
    forall|i: int, b: Seq<char>|
        0 <= i < qs.len() && #[trigger] delta.contains_key((qs[i], b)) ==> syms.contains(b)
}

/// Reading a word from state `i` in `d` and from its name in `e` ends in
/// states of the same index, or fails in both.
proof fn lemma_simulation(
    d: Map<(Seq<char>, Seq<char>), Seq<char>>,
    e: Map<(Seq<char>, Seq<char>), Seq<char>>,
    qs: Seq<Seq<char>>,
    names: Seq<Seq<char>>,
    syms: Seq<Seq<char>>,
    tgt: Seq<Vec<Option<usize>>>,
    cls: Seq<usize>,
    i: int,
    w: Seq<Seq<char>>,
)
    requires
        0 <= i < qs.len(),
        names.len() == qs.len(),
        table_ok(tgt, qs.len(), syms.len()),
        rows_match(d, qs, syms, tgt),
        rows_match(e, names, syms, tgt),
        symbols_listed(d, qs, syms),
        symbols_listed(e, names, syms),
    ensures
        match run(d, qs[i], w) {
            Some(x) => exists|t: int|
                0 <= t < qs.len() && qs[t] == x && run(e, names[i], w) == Some(#[trigger] names[t]),
            None => run(e, names[i], w) is None,
        },
    decreases w.len(),
{
    if w.len() == 0 {
        assert(run(e, names[i], w) == Some(names[i]));
    } else {
        let b = w[0];
        if d.contains_key((qs[i], b)) {
            let a = choose|a: int| 0 <= a < syms.len() && syms[a] == b;
            let t = tgt[i]@[a]->0 as int;
            assert(tgt[i]@[a] is Some);
            lemma_simulation(d, e, qs, names, syms, tgt, cls, t, w.drop_first());
        } else if e.contains_key((names[i], b)) {
            let a = choose|a: int| 0 <= a < syms.len() && syms[a] == b;
            assert(tgt[i]@[a] is Some);
        }
    }
}

/// A table whose entries have pairwise distinct keys maps each key to its entry's target.
pub proof fn lemma_table_distinct(ts: Seq<Transition>, j: int)
    requires
        0 <= j < ts.len(),
        forall|x: int, y: int| 0 <= x < y < ts.len() ==> key_of(#[trigger] ts[x]) != key_of(#[trigger] ts[y]),
    ensures
        table(ts).contains_key(key_of(ts[j])),
        table(ts)[key_of(ts[j])] == ts[j].to@,
    decreases ts.len(),
{
    if j < ts.len() - 1 {
        let t = ts.drop_last();
        assert(key_of(ts[j]) != key_of(ts[ts.len() - 1]));
        assert forall|x: int, y: int| 0 <= x < y < t.len() implies key_of(#[trigger] t[x]) != key_of(#[trigger] t[y]) by {
            assert(t[x] == ts[x]);
            assert(t[y] == ts[y]);
        }
        lemma_table_distinct(t, j);
        assert(t[j] == ts[j]);
    }
}

/// A finite set with a member is not empty.
proof fn lemma_nonempty_len(s: Set<Seq<char>>, x: Seq<char>)
    requires
        s.finite(),
        s.contains(x),
    ensures
        s.len() > 0,
{
    if s.len() == 0 {
        s.lemma_len0_is_empty();
    }
}

/// Distinct representatives have distinct names.
proof fn lemma_names_distinct(qs: Seq<Seq<char>>, cls: Seq<usize>, c1: int, c2: int)
    requires
        qs.no_duplicates(),
        cls.len() == qs.len(),
        0 <= c1 < qs.len(),
        0 <= c2 < qs.len(),
        cls[c1] == c1,
        cls[c2] == c2,
        forall|j: int| 0 <= j < qs.len() ==> is_nested_label(#[trigger] qs[j]),
        encode(class_set(qs, cls, c1)) == encode(class_set(qs, cls, c2)),
    ensures
        c1 == c2,
{
    let s1 = class_set(qs, cls, c1);
    let s2 = class_set(qs, cls, c2);
    assert(s1.subset_of(qs.to_set())) by {
        assert forall|x: Seq<char>| s1.contains(x) implies qs.to_set().contains(x) by {
            let j = choose|j: int| 0 <= j < qs.len() && cls[j] == c1 && qs[j] == x;
            assert(qs.contains(x));
        }
    }
    assert(s2.subset_of(qs.to_set())) by {
        assert forall|x: Seq<char>| s2.contains(x) implies qs.to_set().contains(x) by {
            let j = choose|j: int| 0 <= j < qs.len() && cls[j] == c2 && qs[j] == x;
            assert(qs.contains(x));
        }
    }
    vstd::set_lib::lemma_len_subset(s1, qs.to_set());
    vstd::set_lib::lemma_len_subset(s2, qs.to_set());
    assert forall|x: Seq<char>| s1.contains(x) implies is_nested_label(x) by {
        let j = choose|j: int| 0 <= j < qs.len() && cls[j] == c1 && qs[j] == x;
    }
    assert forall|x: Seq<char>| s2.contains(x) implies is_nested_label(x) by {
        let j = choose|j: int| 0 <= j < qs.len() && cls[j] == c2 && qs[j] == x;
    }
    assert(s1.contains(qs[c1]));
    assert(s2.contains(qs[c2]));
    lemma_nonempty_len(s1, qs[c1]);
    lemma_nonempty_len(s2, qs[c2]);
    lemma_encode_injective_nonempty(s1, s2);
    assert(s1.contains(qs[c1]));
    assert(s2.contains(qs[c1]));
    let j = choose|j: int| 0 <= j < qs.len() && cls[j] == c2 && qs[j] == qs[c1];
    assert(j == c1);
}

/// The composite name of class `c`.
fn class_name(qs: &Vec<String>, cls: &Vec<usize>, c: usize) -> (r: String)
    requires
        cls.len() == qs.len(),
    ensures
        r@ == encode(class_set(labels(qs@), cls@, c as int)),
{
    let ghost q = labels(qs@);
    let mut members: Vec<String> = Vec::new();
    let mut j: usize = 0;
    proof {
        assert(labels(members@).to_set() =~= Set::new(
            |x: Seq<char>| exists|y: int| 0 <= y < 0 && cls@[y] == c && q[y] == x,
        ));
    }
    while j < qs.len()
        invariant
            q == labels(qs@),
            cls.len() == qs.len(),
            j <= qs.len(),
            labels(members@).to_set() == Set::new(
                |x: Seq<char>| exists|y: int| 0 <= y < j && cls@[y] == c && q[y] == x,
            ),
        decreases qs.len() - j,
    {
        let ghost prev = labels(members@).to_set();
        if cls[j] == c {
            proof {
                crate::codec::lemma_push_to_set(labels(members@), qs@[j as int]@);
                assert(labels(members@.push(qs@[j as int])) =~= labels(members@).push(qs@[j as int]@));
            }
            members.push(qs[j].clone());
        }
        proof {
            assert forall|x: Seq<char>| labels(members@).to_set().contains(x) <==> (exists|y: int|
                0 <= y < j + 1 && cls@[y] == c && q[y] == x) by {
                if exists|y: int| 0 <= y < j + 1 && cls@[y] == c && q[y] == x {
                    let y = choose|y: int| 0 <= y < j + 1 && cls@[y] == c && q[y] == x;
                    if y < j {
                        assert(prev.contains(x));
                    }
                }
                if labels(members@).to_set().contains(x) && x != q[j as int] {
                    assert(prev.contains(x));
                    let y = choose|y: int| 0 <= y < j && cls@[y] == c && q[y] == x;
                    assert(0 <= y < j + 1 && cls@[y] == c && q[y] == x);
                }
            }
            assert(labels(members@).to_set() =~= Set::new(
                |x: Seq<char>| exists|y: int| 0 <= y < j + 1 && cls@[y] == c && q[y] == x,
            ));
        }
        j = j + 1;
    }
    proof {
        assert(labels(members@).to_set() =~= class_set(q, cls@, c as int));
    }
    set_to_state(&members)
}

impl DeterministicFiniteAutomata {
    /// Merges states into classes, each named by the composite name of its
    /// members. The partition starts from accepting versus non-accepting
    /// states and is refined until every class moves into the same classes
    /// on every symbol; the result is the coarsest such partition: two states
    /// share a class exactly when they read every word alike (both can read
    /// it or neither can, and both accept it or neither does). Start, accept
    /// states and moves are those of the classes, and the result accepts
    /// exactly the words this automaton accepts. Where missing moves face
    /// only moves into states that accept some word (as in a total automaton,
    /// or one without dead states), these are exactly the classes of states
    /// that accept the same words.
    pub fn remove_equivalent_states(&self) -> (r: Self)
        requires
            dfa_wf(self@),
            forall|q: Seq<char>| self@.states.contains(q) ==> is_nested_label(q),
        ensures
            r@.alphabet == self@.alphabet,
            forall|w: Seq<Seq<char>>| accepts(r@, w) == accepts(self@, w),
            dfa_wf(r@),
            forall|q: Seq<char>| r@.states.contains(q) ==> is_member_label(q),
            merged_over_readings(r@, self@),
            live_gaps(self@) ==> merged_over_classes(r@, self@),
    {
        let ghost delta = self@.delta;
        let ts = &self.transition_function;
        let qs = distinct_labels(&self.states);
        let syms = distinct_labels(&self.alphabet);
        let ghost q = labels(qs@);
        let ghost sy = labels(syms@);
        let n = qs.len();
        let k = syms.len();
        let mut tgt: Vec<Vec<Option<usize>>> = Vec::new();
        let mut acc: Vec<bool> = Vec::new();
        let mut i: usize = 0;
        while i < n
            invariant
                delta == table(ts@),
                dfa_wf(self@),
                delta == self@.delta,
                q == labels(qs@),
                sy == labels(syms@),
                n == qs.len(),
                k == syms.len(),
                set_of(qs@) == self@.states,
                i <= n,
                tgt.len() == i,
                acc.len() == i,
                forall|x: int| 0 <= x < i ==> acc[x] == self@.accept.contains(#[trigger] q[x]),
                forall|x: int| 0 <= x < i ==> (#[trigger] tgt[x])@.len() == k,
                forall|x: int, a: int|
                    0 <= x < i && 0 <= a < k ==> match #[trigger] tgt[x]@[a] {
                        Some(t) => t < n && delta.contains_key((q[x], sy[a])) && delta[(q[x], sy[a])] == q[t as int],
                        None => !delta.contains_key((q[x], sy[a])),
                    },
            decreases n - i,
        {
            let mut row: Vec<Option<usize>> = Vec::new();
            let mut a: usize = 0;
            while a < k
                invariant
                    delta == table(ts@),
                    dfa_wf(self@),
                    delta == self@.delta,
                    q == labels(qs@),
                    sy == labels(syms@),
                    n == qs.len(),
                    k == syms.len(),
                    set_of(qs@) == self@.states,
                    i < n,
                    a <= k,
                    row.len() == a,
                    forall|b: int|
                        0 <= b < a ==> match #[trigger] row@[b] {
                            Some(t) => t < n && delta.contains_key((q[i as int], sy[b])) && delta[(q[i as int], sy[b])]
                                == q[t as int],
                            None => !delta.contains_key((q[i as int], sy[b])),
                        },
                decreases k - a,
            {
                match find_transition(ts, qs[i].as_str(), syms[a].as_str()) {
                    Some(m) => {
                        proof {
                            assert(delta.contains_key((q[i as int], sy[a as int])));
                        }
                        match index_of(&qs, ts[m].to.as_str()) {
                            Some(t) => {
                                row.push(Some(t));
                            },
                            None => {
                                proof {
                                    assert(false);
                                }
                                row.push(None);
                            },
                        }
                    },
                    None => {
                        row.push(None);
                    },
                }
                a = a + 1;
            }
            tgt.push(row);
            acc.push(contains_label(&self.accept_states, qs[i].as_str()));
            i = i + 1;
        }
        proof {
            assert(table_ok(tgt@, n as nat, k as nat));
            assert(rows_match(delta, q, sy, tgt@));
        }
        let cls = stable_partition(&acc, &tgt, k);
        let mut names: Vec<String> = Vec::new();
        let mut i: usize = 0;
        while i < n
            invariant
                n == qs.len(),
                q == labels(qs@),
                cls.len() == n,
                is_congruence(cls@, acc@, tgt@, n as nat, k as nat),
                i <= n,
                names.len() == i,
                forall|x: int| 0 <= x < i ==> (#[trigger] names[x])@ == encode(class_set(q, cls@, cls[x] as int)),
            decreases n - i,
        {
            names.push(class_name(&qs, &cls, cls[i]));
            i = i + 1;
        }
        let ghost nm = labels(names@);
        proof {
            assert forall|x: int, y: int| 0 <= x < n && 0 <= y < n implies (#[trigger] nm[x] == #[trigger] nm[y]) == (
            cls[x] == cls[y]) by {
                if nm[x] == nm[y] {
                    assert(cls[cls[x] as int] == cls[x]);
                    assert(cls[cls[y] as int] == cls[y]);
                    assert forall|j: int| 0 <= j < q.len() implies is_nested_label(#[trigger] q[j]) by {
                        lemma_set_of_index(qs@, j);
                    }
                    lemma_names_distinct(q, cls@, cls[x] as int, cls[y] as int);
                }
            }
        }
        // States, accept states and moves of the merged automaton.
        let mut states: Vec<String> = Vec::new();
        let mut accept_states: Vec<String> = Vec::new();
        let mut moves: Vec<Transition> = Vec::new();
        let ghost mut origin: Seq<(int, int)> = Seq::empty();
        let mut i: usize = 0;
        while i < n
            invariant
                n == qs.len(),
                k == syms.len(),
                q == labels(qs@),
                sy == labels(syms@),
                sy.no_duplicates(),
                nm == labels(names@),
                names.len() == n,
                cls.len() == n,
                acc.len() == n,
                is_congruence(cls@, acc@, tgt@, n as nat, k as nat),
                table_ok(tgt@, n as nat, k as nat),
                forall|x: int, y: int| 0 <= x < n && 0 <= y < n ==> (#[trigger] nm[x] == #[trigger] nm[y]) == (cls[x] == cls[y]),
                i <= n,
                forall|s: Seq<char>| #[trigger] set_of(states@).contains(s) <==> exists|x: int| 0 <= x < i && cls[x] == x && nm[x] == s,
                forall|s: Seq<char>| #[trigger] set_of(accept_states@).contains(s) <==> exists|x: int| 0 <= x < i && cls[x] == x && acc[x] && nm[x] == s,
                origin.len() == moves.len(),
                forall|e: int| 0 <= e < moves.len() ==> {
                    let (x, a) = #[trigger] origin[e];
                    &&& 0 <= x < i && cls[x] == x && 0 <= a < k
                    &&& tgt[x]@[a] is Some
                    &&& moves@[e].from@ == nm[x] && moves@[e].symbol@ == sy[a] && moves@[e].to@ == nm[tgt[x]@[a]->0 as int]
                },
                forall|x: int, a: int| 0 <= x < i && cls[x] == x && 0 <= a < k && (#[trigger] tgt[x]@[a]) is Some ==>
                    exists|e: int| 0 <= e < origin.len() && #[trigger] origin[e] == (x, a),
                forall|e1: int, e2: int| 0 <= e1 < e2 < origin.len() ==> #[trigger] origin[e1] != #[trigger] origin[e2],
            decreases n - i,
        {
            if cls[i] == i {
                let ghost before = states@;
                states.push(names[i].clone());
                proof {
                    crate::collection::lemma_set_of_push(before, names@[i as int]);
                    assert forall|s: Seq<char>| #[trigger] set_of(states@).contains(s) <==> exists|x: int| 0 <= x < i + 1 && cls[x] == x && nm[x] == s by {
                        if s == nm[i as int] {
                            assert(cls[i as int] == i);
                        }
                    }
                }
                if acc[i] {
                    let ghost before = accept_states@;
                    accept_states.push(names[i].clone());
                    proof {
                        crate::collection::lemma_set_of_push(before, names@[i as int]);
                        assert forall|s: Seq<char>| #[trigger] set_of(accept_states@).contains(s) <==> exists|x: int| 0 <= x < i + 1 && cls[x] == x && acc[x] && nm[x] == s by {
                            if s == nm[i as int] {
                                assert(cls[i as int] == i && acc[i as int]);
                            }
                        }
                    }
                }
                let mut a: usize = 0;
                while a < k
                    invariant
                        n == qs.len(),
                        k == syms.len(),
                        q == labels(qs@),
                        sy == labels(syms@),
                        nm == labels(names@),
                        names.len() == n,
                        cls.len() == n,
                        table_ok(tgt@, n as nat, k as nat),
                        i < n,
                        cls[i as int] == i,
                        a <= k,
                        origin.len() == moves.len(),
                        forall|e: int| 0 <= e < moves.len() ==> {
                            let (x, b) = #[trigger] origin[e];
                            &&& 0 <= x < i + 1 && cls[x] == x && 0 <= b < k
                            &&& tgt[x]@[b] is Some
                            &&& moves@[e].from@ == nm[x] && moves@[e].symbol@ == sy[b] && moves@[e].to@ == nm[tgt[x]@[b]->0 as int]
                        },
                        forall|x: int, b: int| 0 <= x < i && cls[x] == x && 0 <= b < k && (#[trigger] tgt[x]@[b]) is Some ==>
                            exists|e: int| 0 <= e < origin.len() && #[trigger] origin[e] == (x, b),
                        forall|b: int| 0 <= b < a && (#[trigger] tgt[i as int]@[b]) is Some ==>
                            exists|e: int| 0 <= e < origin.len() && #[trigger] origin[e] == (i as int, b),
                        forall|e: int| 0 <= e < origin.len() ==> (#[trigger] origin[e]).0 < i || origin[e].1 < a,
                        forall|e1: int, e2: int| 0 <= e1 < e2 < origin.len() ==> #[trigger] origin[e1] != #[trigger] origin[e2],
                    decreases k - a,
                {
                    assert(tgt@[i as int]@.len() == k);
                    match tgt[i][a] {
                        Some(t) => {
                            let ghost before = origin;
                            moves.push(Transition { from: names[i].clone(), symbol: syms[a].clone(), to: names[t].clone() });
                            proof {
                                origin = origin.push((i as int, a as int));
                                assert(origin[origin.len() - 1] == (i as int, a as int));
                                assert forall|e: int| 0 <= e < origin.len() - 1 implies #[trigger] origin[e] == before[e] by {}
                                assert forall|x: int, b: int| 0 <= x < i && cls[x] == x && 0 <= b < k && (#[trigger] tgt[x]@[b]) is Some implies
                                    exists|e: int| 0 <= e < origin.len() && #[trigger] origin[e] == (x, b) by {
                                    let e0 = choose|e: int| 0 <= e < before.len() && #[trigger] before[e] == (x, b);
                                    assert(origin[e0] == before[e0]);
                                }
                                assert forall|b: int| 0 <= b < a + 1 && (#[trigger] tgt[i as int]@[b]) is Some implies
                                    exists|e: int| 0 <= e < origin.len() && #[trigger] origin[e] == (i as int, b) by {
                                    if b == a {
                                        assert(origin[origin.len() - 1] == (i as int, b));
                                    } else {
                                        let e0 = choose|e: int| 0 <= e < before.len() && #[trigger] before[e] == (i as int, b);
                                        assert(origin[e0] == before[e0]);
                                    }
                                }
                            }
                        },
                        None => {},
                    }
                    a = a + 1;
                }
            }
            i = i + 1;
        }
        let s = index_of(&qs, self.start_state.as_str()).unwrap();
        let r = DeterministicFiniteAutomata {
            states,
            alphabet: copy_labels(&self.alphabet),
            transition_function: moves,
            start_state: names[s].clone(),
            accept_states,
        };
        proof {
            let e = table(r.transition_function@);
            let mv = r.transition_function@;
            assert forall|x: int, y: int| 0 <= x < y < mv.len() implies key_of(#[trigger] mv[x]) != key_of(#[trigger] mv[y]) by {
                let (x1, a1) = origin[x];
                let (y1, b1) = origin[y];
                if key_of(mv[x]) == key_of(mv[y]) {
                    assert(nm[x1] == nm[y1]);
                    assert(sy[a1] == sy[b1]);
                }
            }
            // The merged table, read through the names of all indices.
            assert forall|x: int, a: int| 0 <= x < n && 0 <= a < k implies match #[trigger] tgt[x]@[a] {
                Some(t) => e.contains_key((nm[x], sy[a])) && e[(nm[x], sy[a])] == nm[t as int],
                None => !e.contains_key((nm[x], sy[a])),
            } by {
                let c = cls[x] as int;
                assert(cls[c] == c);
                assert(rows_agree(cls@, tgt@, k as nat, x, c));
                assert(target_class(cls@, tgt[x]@[a]) == target_class(cls@, tgt[c]@[a]));
                assert(nm[x] == nm[c]);
                if tgt[c]@[a] is Some {
                    let j = choose|j: int| 0 <= j < origin.len() && #[trigger] origin[j] == (c, a);
                    lemma_table_distinct(mv, j);
                    let t1 = tgt[x]@[a]->0 as int;
                    let t2 = tgt[c]@[a]->0 as int;
                    assert(cls[t1] == cls[t2]);
                    assert(nm[t1] == nm[t2]);
                } else if e.contains_key((nm[x], sy[a])) {
                    lemma_table_key(mv, (nm[x], sy[a]));
                    let j = choose|j: int| 0 <= j < mv.len() && key_of(#[trigger] mv[j]) == (nm[x], sy[a]);
                    let (x1, a1) = origin[j];
                    assert(nm[x1] == nm[c]);
                    assert(a1 == a);
                }
            }
            assert forall|x: int, b: Seq<char>| 0 <= x < n && #[trigger] e.contains_key((nm[x], b)) implies sy.contains(b) by {
                lemma_table_key(mv, (nm[x], b));
                let j = choose|j: int| 0 <= j < mv.len() && key_of(#[trigger] mv[j]) == (nm[x], b);
                let (x1, a1) = origin[j];
                assert(sy[a1] == b);
            }
            assert forall|x: int, b: Seq<char>| 0 <= x < n && #[trigger] delta.contains_key((q[x], b)) implies sy.contains(b) by {
                assert(self@.alphabet.contains(b));
                let j = choose|j: int| 0 <= j < labels(syms@).len() && labels(syms@)[j] == b;
            }
            assert(rows_match(e, nm, sy, tgt@));
            // Well-formedness of the merged automaton.
            assert(set_of(states@).contains(nm[s as int])) by {
                let c = cls[s as int] as int;
                assert(cls[c] == c);
                assert(nm[c] == nm[s as int]);
            }
            assert forall|x: Seq<char>| r@.accept.contains(x) implies r@.states.contains(x) by {
                let y = choose|y: int| 0 <= y < n && cls[y] == y && acc[y] && nm[y] == x;
            }
            assert forall|k: (Seq<char>, Seq<char>)| #[trigger] e.contains_key(k) implies r@.states.contains(k.0)
                && r@.alphabet.contains(k.1) && r@.states.contains(e[k]) by {
                lemma_table_key(mv, k);
                let j = choose|j: int| 0 <= j < mv.len() && key_of(#[trigger] mv[j]) == k;
                let (x1, a1) = origin[j];
                lemma_table_distinct(mv, j);
                let t = tgt[x1]@[a1]->0 as int;
                let c = cls[t] as int;
                assert(cls[c] == c);
                assert(nm[c] == nm[t]);
                lemma_set_of_index(syms@, a1);
            }
            assert forall|x: Seq<char>| r@.states.contains(x) implies is_member_label(x) by {
                let y = choose|y: int| 0 <= y < n && cls[y] == y && nm[y] == x;
                let cs = class_set(q, cls@, cls[y] as int);
                assert(cs.subset_of(q.to_set())) by {
                    assert forall|z: Seq<char>| cs.contains(z) implies q.to_set().contains(z) by {
                        let j = choose|j: int| 0 <= j < q.len() && cls@[j] == cls[y] && q[j] == z;
                        assert(q.contains(z));
                    }
                }
                q.lemma_cardinality_of_set();
                vstd::set_lib::lemma_len_subset(cs, q.to_set());
                assert forall|z: Seq<char>| cs.contains(z) implies is_nested_label(z) by {
                    let j = choose|j: int| 0 <= j < q.len() && cls@[j] == cls[y] && q[j] == z;
                    lemma_set_of_index(qs@, j);
                }
                crate::codec::lemma_encode_member(cs);
            }
            {
                let kk = k as nat;
                let nn = n as nat;
                // Same class exactly when every word is read alike.
                assert forall|x: int, y: int| 0 <= x < n && 0 <= y < n implies (cls[x] == cls[y]) == reads_alike(self@, q[x], q[y]) by {
                    lemma_alike_index(self@, q, sy, tgt@, acc@, x, y);
                    if cls[x] == cls[y] {
                        if tells_apart(acc@, tgt@, kk, x, y) {
                            let w = choose|w: Seq<int>| valid_word(w, kk) && #[trigger] behaves_differently(acc@, tgt@, x, y, w);
                            lemma_congruence_same_words(cls@, acc@, tgt@, nn, kk, x, y, w);
                        }
                    }
                }
                assert forall|x: int| 0 <= x < n implies #[trigger] nm[x] == encode(alike_class(self@, q[x])) by {
                    assert(class_set(q, cls@, cls[x] as int) =~= alike_class(self@, q[x])) by {
                        assert forall|p: Seq<char>| class_set(q, cls@, cls[x] as int).contains(p) <==> alike_class(self@, q[x]).contains(p) by {
                            if class_set(q, cls@, cls[x] as int).contains(p) {
                                let j = choose|j: int| 0 <= j < q.len() && cls@[j] == cls[x] as int && q[j] == p;
                                lemma_set_of_index(qs@, j);
                            }
                            if alike_class(self@, q[x]).contains(p) {
                                let j = choose|j: int| 0 <= j < labels(qs@).len() && labels(qs@)[j] == p;
                                assert(q[j] == p);
                            }
                        }
                    }
                }
                assert forall|p: Seq<char>| self@.states.contains(p) implies exists|j: int| 0 <= j < n && q[j] == p by {
                    let j = choose|j: int| 0 <= j < labels(qs@).len() && labels(qs@)[j] == p;
                    assert(q[j] == p);
                }
                let rs = Set::new(|x: Seq<char>| exists|p: Seq<char>| self@.states.contains(p) && x == encode(alike_class(self@, p)));
                assert forall|x: Seq<char>| r@.states.contains(x) <==> rs.contains(x) by {
                    if r@.states.contains(x) {
                        let y = choose|y: int| 0 <= y < n && cls[y] == y && nm[y] == x;
                        lemma_set_of_index(qs@, y);
                    }
                    if rs.contains(x) {
                        let p = choose|p: Seq<char>| self@.states.contains(p) && x == encode(alike_class(self@, p));
                        let j = choose|j: int| 0 <= j < n && q[j] == p;
                        let c = cls[j] as int;
                        assert(cls[c] == c);
                        assert(nm[c] == nm[j]);
                    }
                }
                assert(r@.states =~= rs);
                let ra = Set::new(|x: Seq<char>| exists|p: Seq<char>| self@.accept.contains(p) && x == encode(alike_class(self@, p)));
                assert forall|x: Seq<char>| r@.accept.contains(x) <==> ra.contains(x) by {
                    if r@.accept.contains(x) {
                        let y = choose|y: int| 0 <= y < n && cls[y] == y && acc[y] && nm[y] == x;
                        assert(self@.accept.contains(q[y]));
                    }
                    if ra.contains(x) {
                        let p = choose|p: Seq<char>| self@.accept.contains(p) && x == encode(alike_class(self@, p));
                        let j = choose|j: int| 0 <= j < n && q[j] == p;
                        let c = cls[j] as int;
                        assert(cls[c] == c);
                        assert(nm[c] == nm[j]);
                        assert(acc[j]);
                        assert(acc[c] == acc[j]);
                    }
                }
                assert(r@.accept =~= ra);
                assert(r@.start == encode(alike_class(self@, self@.start)));
                assert forall|p: Seq<char>, a: Seq<char>| #[trigger] reading_moves(r@, self@, p, a) by {
                    if self@.states.contains(p) {
                        let i = choose|i: int| 0 <= i < n && q[i] == p;
                        assert(encode(alike_class(self@, p)) == nm[i]);
                        if sy.contains(a) {
                            let b = choose|b: int| 0 <= b < sy.len() && sy[b] == a;
                            match tgt@[i]@[b] {
                                Some(t) => {
                                    assert(nm[t as int] == encode(alike_class(self@, q[t as int])));
                                },
                                None => {},
                            }
                        } else {
                            if e.contains_key((nm[i], a)) {
                                assert(sy.contains(a));
                            }
                            if delta.contains_key((q[i], a)) {
                                assert(sy.contains(a));
                            }
                        }
                    }
                }
            }
            if live_gaps(self@) {
                let kk = k as nat;
                let nn = n as nat;
                assert forall|i: int, j: int, a: int|
                    0 <= i < nn && 0 <= j < nn && 0 <= a < kk && (#[trigger] tgt@[i]@[a]) is None && (#[trigger] tgt@[j]@[a]) is Some
                        implies live(acc@, tgt@, kk, tgt@[j]@[a]->0 as int) by {
                    let t = tgt@[j]@[a]->0 as int;
                    lemma_set_of_index(qs@, i);
                    lemma_set_of_index(qs@, j);
                    assert(!delta.contains_key((q[i], sy[a])));
                    assert(delta.contains_key((q[j], sy[a])) && delta[(q[j], sy[a])] == q[t]);
                    let w = choose|w: Seq<Seq<char>>| #[trigger] accepts_from(self@, delta[(q[j], sy[a])], w);
                    if !(forall|x: int| 0 <= x < w.len() ==> sy.contains(#[trigger] w[x])) {
                        lemma_outside_rejects(self@, q, sy, tgt@, t, w);
                    }
                    let v = lemma_word_indices(sy, w);
                    lemma_idx_accepts(self@, q, sy, tgt@, acc@, t, v);
                    assert(valid_word(v, kk) && iaccepts(acc@, tgt@, t, v));
                }
                assert(gaps_live(acc@, tgt@, nn, kk));
                // Same class exactly when the same words are accepted.
                assert forall|x: int, y: int| 0 <= x < n && 0 <= y < n implies (cls[x] == cls[y]) == equivalent(self@, q[x], q[y]) by {
                    lemma_equivalent_index(self@, q, sy, tgt@, acc@, x, y);
                    if cls[x] == cls[y] {
                        if distinguishable(acc@, tgt@, kk, x, y) {
                            let w = choose|w: Seq<int>| valid_word(w, kk) && #[trigger] iaccepts(acc@, tgt@, x, w) != iaccepts(acc@, tgt@, y, w);
                            lemma_congruence_same_words(cls@, acc@, tgt@, nn, kk, x, y, w);
                        }
                    }
                }
                assert forall|x: int| 0 <= x < n implies #[trigger] nm[x] == encode(eq_class(self@, q[x])) by {
                    assert(class_set(q, cls@, cls[x] as int) =~= eq_class(self@, q[x])) by {
                        assert forall|p: Seq<char>| class_set(q, cls@, cls[x] as int).contains(p) <==> eq_class(self@, q[x]).contains(p) by {
                            if class_set(q, cls@, cls[x] as int).contains(p) {
                                let j = choose|j: int| 0 <= j < q.len() && cls@[j] == cls[x] as int && q[j] == p;
                                lemma_set_of_index(qs@, j);
                            }
                            if eq_class(self@, q[x]).contains(p) {
                                let j = choose|j: int| 0 <= j < labels(qs@).len() && labels(qs@)[j] == p;
                                assert(q[j] == p);
                            }
                        }
                    }
                }
                assert forall|p: Seq<char>| self@.states.contains(p) implies exists|j: int| 0 <= j < n && q[j] == p by {
                    let j = choose|j: int| 0 <= j < labels(qs@).len() && labels(qs@)[j] == p;
                    assert(q[j] == p);
                }
                let rs = Set::new(|x: Seq<char>| exists|p: Seq<char>| self@.states.contains(p) && x == encode(eq_class(self@, p)));
                assert forall|x: Seq<char>| r@.states.contains(x) <==> rs.contains(x) by {
                    if r@.states.contains(x) {
                        let y = choose|y: int| 0 <= y < n && cls[y] == y && nm[y] == x;
                        lemma_set_of_index(qs@, y);
                    }
                    if rs.contains(x) {
                        let p = choose|p: Seq<char>| self@.states.contains(p) && x == encode(eq_class(self@, p));
                        let j = choose|j: int| 0 <= j < n && q[j] == p;
                        let c = cls[j] as int;
                        assert(cls[c] == c);
                        assert(nm[c] == nm[j]);
                    }
                }
                assert(r@.states =~= rs);
                let ra = Set::new(|x: Seq<char>| exists|p: Seq<char>| self@.accept.contains(p) && x == encode(eq_class(self@, p)));
                assert forall|x: Seq<char>| r@.accept.contains(x) <==> ra.contains(x) by {
                    if r@.accept.contains(x) {
                        let y = choose|y: int| 0 <= y < n && cls[y] == y && acc[y] && nm[y] == x;
                        assert(self@.accept.contains(q[y]));
                    }
                    if ra.contains(x) {
                        let p = choose|p: Seq<char>| self@.accept.contains(p) && x == encode(eq_class(self@, p));
                        let j = choose|j: int| 0 <= j < n && q[j] == p;
                        let c = cls[j] as int;
                        assert(cls[c] == c);
                        assert(nm[c] == nm[j]);
                        assert(acc[j]);
                        assert(acc[c] == acc[j]);
                    }
                }
                assert(r@.accept =~= ra);
                assert(r@.start == encode(eq_class(self@, self@.start)));
                assert forall|p: Seq<char>, a: Seq<char>| #[trigger] class_moves(r@, self@, p, a) by {
                    if self@.states.contains(p) {
                        let i = choose|i: int| 0 <= i < n && q[i] == p;
                        assert(encode(eq_class(self@, p)) == nm[i]);
                        if sy.contains(a) {
                            let b = choose|b: int| 0 <= b < sy.len() && sy[b] == a;
                            match tgt@[i]@[b] {
                                Some(t) => {
                                    assert(nm[t as int] == encode(eq_class(self@, q[t as int])));
                                },
                                None => {},
                            }
                        } else {
                            if e.contains_key((nm[i], a)) {
                                assert(sy.contains(a));
                            }
                            if delta.contains_key((q[i], a)) {
                                assert(sy.contains(a));
                            }
                        }
                    }
                }
            }
            assert forall|w: Seq<Seq<char>>| accepts(r@, w) == accepts(self@, w) by {
                lemma_simulation(delta, e, q, nm, sy, tgt@, cls@, s as int, w);
                match run(delta, q[s as int], w) {
                    Some(x) => {
                        let t = choose|t: int| 0 <= t < q.len() && q[t] == x && run(e, nm[s as int], w) == Some(#[trigger] nm[t]);
                        let c = cls[t] as int;
                        assert(nm[t] == nm[c]);
                        assert(acc[t] == acc[c]);
                        if r@.accept.contains(nm[t]) {
                            let y = choose|y: int| 0 <= y < n && cls[y] == y && acc[y] && nm[y] == nm[t];
                            assert(cls[y] == cls[t]);
                        }
                        if acc[t] {
                            assert(set_of(r.accept_states@).contains(nm[c]));
                        }
                    },
                    None => {},
                }
            }
        }
        r
    }
}

/// What minimizing asks of an automaton: it is well formed and its state
/// names can be members of composite names.
pub open spec fn minimizable(d: DfaView) -> bool {
    &&& dfa_wf(d)
    &&& forall|q: Seq<char>| d.states.contains(q) ==> is_nested_label(q)
}

/// A minimal automaton: fit to be minimized, every state reachable from the
/// start, every state but the start leads to an accept state, and no two
/// distinct states accept the same words.
pub open spec fn is_minimal(m: DfaView) -> bool {
    &&& minimizable(m)
    &&& forall|x: Seq<char>| m.states.contains(x) ==> #[trigger] reachable_from(m.delta, m.start).contains(x)
    &&& forall|x: Seq<char>| m.states.contains(x) && x != m.start ==> #[trigger] productive(m.delta, m.accept).contains(x)
    &&& forall|x: Seq<char>, y: Seq<char>|
        m.states.contains(x) && m.states.contains(y) && #[trigger] equivalent(m, x, y) ==> x == y
}

/// `m` is a minimal automaton with the alphabet of `d` that accepts the
/// words `d` accepts.
pub open spec fn is_minimization(m: DfaView, d: DfaView) -> bool {
    &&& m.alphabet == d.alphabet
    &&& forall|w: Seq<Seq<char>>| accepts(m, w) == accepts(d, w)
    &&& is_minimal(m)
}

/// Reading `u` then `v`.
pub proof fn lemma_run_concat(delta: Map<(Seq<char>, Seq<char>), Seq<char>>, q: Seq<char>, u: Seq<Seq<char>>, v: Seq<Seq<char>>)
    ensures
        run(delta, q, u + v) == match run(delta, q, u) {
            Some(p) => run(delta, p, v),
            None => None,
        },
    decreases u.len(),
{
    if u.len() == 0 {
        assert(u + v =~= v);
    } else {
        assert((u + v)[0] == u[0]);
        assert((u + v).drop_first() =~= u.drop_first() + v);
        if delta.contains_key((q, u[0])) {
            lemma_run_concat(delta, delta[(q, u[0])], u.drop_first(), v);
        }
    }
}

/// Reading a word in the merged automaton follows the classes of the states
/// read in the original.
proof fn lemma_class_run(r: DfaView, d: DfaView, p: Seq<char>, w: Seq<Seq<char>>)
    requires
        merged_over_classes(r, d),
        dfa_wf(d),
        d.states.contains(p),
    ensures
        match run(d.delta, p, w) {
            Some(x) => run(r.delta, encode(eq_class(d, p)), w) == Some(encode(eq_class(d, x))),
            None => run(r.delta, encode(eq_class(d, p)), w) is None,
        },
    decreases w.len(),
{
    if w.len() > 0 {
        assert(class_moves(r, d, p, w[0]));
        if d.delta.contains_key((p, w[0])) {
            lemma_class_run(r, d, d.delta[(p, w[0])], w.drop_first());
        }
    }
}

/// The name of a class is an accept state of the merged automaton exactly
/// when the class holds accept states.
proof fn lemma_class_accept(r: DfaView, d: DfaView, z: Seq<char>)
    requires
        merged_over_classes(r, d),
        minimizable(d),
        d.states.finite(),
        d.states.contains(z),
    ensures
        r.accept.contains(encode(eq_class(d, z))) == d.accept.contains(z),
{
    assert(equivalent(d, z, z));
    assert(eq_class(d, z).contains(z));
    if r.accept.contains(encode(eq_class(d, z))) {
        let p = choose|p: Seq<char>| d.accept.contains(p) && encode(eq_class(d, z)) == encode(eq_class(d, p));
        lemma_class_member(d, z);
        lemma_class_member(d, p);
        assert(equivalent(d, p, p));
        assert(eq_class(d, p).contains(p));
        lemma_nonempty_len(eq_class(d, z), z);
        lemma_nonempty_len(eq_class(d, p), p);
        lemma_encode_injective_nonempty(eq_class(d, z), eq_class(d, p));
        assert(eq_class(d, p).contains(z));
        let e = Seq::<Seq<char>>::empty();
        assert(accepts_from(d, z, e) == accepts_from(d, p, e));
        assert(run(d.delta, z, e) == Some(z));
        assert(run(d.delta, p, e) == Some(p));
    }
}

/// A class is a finite set of member labels.
proof fn lemma_class_member(d: DfaView, z: Seq<char>)
    requires
        minimizable(d),
        d.states.finite(),
    ensures
        eq_class(d, z).finite(),
        forall|x: Seq<char>| eq_class(d, z).contains(x) ==> is_nested_label(x),
{
    assert(eq_class(d, z).subset_of(d.states));
    vstd::set_lib::lemma_len_subset(eq_class(d, z), d.states);
}

/// Equivalent states have the same class.
proof fn lemma_same_class(d: DfaView, p: Seq<char>, q: Seq<char>)
    requires
        equivalent(d, p, q),
    ensures
        eq_class(d, p) == eq_class(d, q),
{
    assert forall|x: Seq<char>| eq_class(d, p).contains(x) <==> eq_class(d, q).contains(x) by {
        if d.states.contains(x) {
            if equivalent(d, x, p) {
                assert forall|w: Seq<Seq<char>>| #[trigger] accepts_from(d, x, w) == accepts_from(d, q, w) by {
                    assert(accepts_from(d, x, w) == accepts_from(d, p, w));
                    assert(accepts_from(d, p, w) == accepts_from(d, q, w));
                }
            }
            if equivalent(d, x, q) {
                assert forall|w: Seq<Seq<char>>| #[trigger] accepts_from(d, x, w) == accepts_from(d, p, w) by {
                    assert(accepts_from(d, x, w) == accepts_from(d, q, w));
                    assert(accepts_from(d, p, w) == accepts_from(d, q, w));
                }
            }
        }
    }
    assert(eq_class(d, p) =~= eq_class(d, q));
}

/// After removing unreachable and then non-productive states, either the
/// start state is productive, or it is the only state left.
proof fn lemma_pruned_shape(d: DfaView, r1: DfaView, pd: DfaView)
    requires
        r1.states == reachable_from(d.delta, d.start),
        r1.delta == moves_from(d.delta, reachable_from(d.delta, d.start)),
        r1.start == d.start,
        r1.accept == d.accept.intersect(reachable_from(d.delta, d.start)),
        pd.states == productive(r1.delta, r1.accept).insert(r1.start),
        pd.delta == moves_within(r1.delta, productive(r1.delta, r1.accept).insert(r1.start)),
        pd.start == r1.start,
        pd.accept == r1.accept,
    ensures
        productive(r1.delta, r1.accept).contains(pd.start) || pd.states == set![pd.start],
        forall|x: Seq<char>| #[trigger] productive(r1.delta, r1.accept).contains(x) ==> exists|u: Seq<Seq<char>>|
            run(pd.delta, pd.start, u) == Some(x),
{
    let ps = productive(r1.delta, r1.accept);
    let rs = reachable_from(d.delta, d.start);
    assert forall|x: Seq<char>| #[trigger] ps.contains(x) implies exists|u: Seq<Seq<char>>| run(pd.delta, pd.start, u) == Some(x) by {
        let w = choose|w: Seq<Seq<char>>| #[trigger] run(r1.delta, x, w) is Some && r1.accept.contains(run(r1.delta, x, w)->0);
        // x is reachable.
        if w.len() == 0 {
            assert(rs.contains(x));
        } else {
            assert(r1.delta.contains_key((x, w[0])));
            assert(rs.contains(x));
        }
        let u = choose|u: Seq<Seq<char>>| run(d.delta, d.start, u) == Some(x);
        lemma_run_reachable(d.delta, d.start, d.start, u);
        assert(run(d.delta, d.start, Seq::empty()) == Some(d.start));
        assert(rs.contains(d.start));
        lemma_run_concat(r1.delta, r1.start, u, w);
        lemma_run_productive(r1.delta, r1.accept, ps.insert(r1.start), r1.start, u + w);
        lemma_run_concat(pd.delta, pd.start, u, w);
        assert(forall|k: (Seq<char>, Seq<char>)| #[trigger] pd.delta.contains_key(k) ==> r1.delta.contains_key(k) && r1.delta[k] == pd.delta[k]);
        lemma_run_sub(pd.delta, r1.delta, pd.start, u);
        assert(run(pd.delta, pd.start, u) == Some(x));
    }
    if !ps.contains(pd.start) {
        assert forall|x: Seq<char>| pd.states.contains(x) implies x == pd.start by {
            if x != pd.start {
                assert(ps.contains(x));
                let u = choose|u: Seq<Seq<char>>| run(pd.delta, pd.start, u) == Some(x);
                let w = choose|w: Seq<Seq<char>>| #[trigger] run(r1.delta, x, w) is Some && r1.accept.contains(run(r1.delta, x, w)->0);
                lemma_run_sub(pd.delta, r1.delta, pd.start, u);
                lemma_run_concat(r1.delta, r1.start, u, w);
                assert(run(r1.delta, r1.start, u + w) is Some && r1.accept.contains(run(r1.delta, r1.start, u + w)->0));
            }
        }
        assert(pd.states =~= set![pd.start]);
    }
}

/// The automaton left after pruning has live gaps.
proof fn lemma_pruned_live_gaps(d: DfaView, r1: DfaView, pd: DfaView)
    requires
        r1.states == reachable_from(d.delta, d.start),
        r1.delta == moves_from(d.delta, reachable_from(d.delta, d.start)),
        r1.start == d.start,
        r1.accept == d.accept.intersect(reachable_from(d.delta, d.start)),
        pd.states == productive(r1.delta, r1.accept).insert(r1.start),
        pd.delta == moves_within(r1.delta, productive(r1.delta, r1.accept).insert(r1.start)),
        pd.start == r1.start,
        pd.accept == r1.accept,
    ensures
        live_gaps(pd),
{
    let ps = productive(r1.delta, r1.accept);
    lemma_pruned_shape(d, r1, pd);
    assert forall|p: Seq<char>, q: Seq<char>, a: Seq<char>|
        #![trigger pd.delta.contains_key((p, a)), pd.delta.contains_key((q, a))]
        pd.states.contains(p) && pd.states.contains(q) && !pd.delta.contains_key((p, a)) && pd.delta.contains_key((q, a))
            implies exists|w: Seq<Seq<char>>| #[trigger] accepts_from(pd, pd.delta[(q, a)], w) by {
        let t = pd.delta[(q, a)];
        if ps.contains(t) {
            let w = choose|w: Seq<Seq<char>>| #[trigger] run(r1.delta, t, w) is Some && r1.accept.contains(run(r1.delta, t, w)->0);
            lemma_run_productive(r1.delta, r1.accept, ps.insert(r1.start), t, w);
            assert(accepts_from(pd, t, w));
        } else {
            assert(t == pd.start);
            if !ps.contains(pd.start) {
                assert(p == pd.start && q == pd.start);
            } else {
                assert(false);
            }
        }
    }
}

/// The merged automaton of the pruned one is minimal.
proof fn lemma_minimal(d: DfaView, r1: DfaView, pd: DfaView, m: DfaView)
    requires
        minimizable(d),
        r1.states == reachable_from(d.delta, d.start),
        r1.delta == moves_from(d.delta, reachable_from(d.delta, d.start)),
        r1.start == d.start,
        r1.accept == d.accept.intersect(reachable_from(d.delta, d.start)),
        pd.states == productive(r1.delta, r1.accept).insert(r1.start),
        pd.delta == moves_within(r1.delta, productive(r1.delta, r1.accept).insert(r1.start)),
        pd.start == r1.start,
        pd.accept == r1.accept,
        minimizable(pd),
        pd.states.finite(),
        merged_over_classes(m, pd),
    ensures
        forall|x: Seq<char>| m.states.contains(x) ==> #[trigger] reachable_from(m.delta, m.start).contains(x),
        forall|x: Seq<char>| m.states.contains(x) && x != m.start ==> #[trigger] productive(m.delta, m.accept).contains(x),
        forall|x: Seq<char>, y: Seq<char>| m.states.contains(x) && m.states.contains(y) && #[trigger] equivalent(m, x, y) ==> x == y,
{
    let ps = productive(r1.delta, r1.accept);
    lemma_pruned_shape(d, r1, pd);
    assert(equivalent(pd, pd.start, pd.start));
    assert forall|x: Seq<char>| m.states.contains(x) implies #[trigger] reachable_from(m.delta, m.start).contains(x) by {
        let p = choose|p: Seq<char>| pd.states.contains(p) && x == encode(eq_class(pd, p));
        if p == pd.start {
            assert(run(m.delta, m.start, Seq::empty()) == Some(x));
        } else {
            assert(ps.contains(p));
            let u = choose|u: Seq<Seq<char>>| run(pd.delta, pd.start, u) == Some(p);
            lemma_class_run(m, pd, pd.start, u);
            assert(run(m.delta, m.start, u) == Some(x));
        }
    }
    assert forall|x: Seq<char>| m.states.contains(x) && x != m.start implies #[trigger] productive(m.delta, m.accept).contains(x) by {
        let p = choose|p: Seq<char>| pd.states.contains(p) && x == encode(eq_class(pd, p));
        assert(p != pd.start);
        assert(ps.contains(p));
        let w = choose|w: Seq<Seq<char>>| #[trigger] run(r1.delta, p, w) is Some && r1.accept.contains(run(r1.delta, p, w)->0);
        lemma_run_productive(r1.delta, r1.accept, ps.insert(r1.start), p, w);
        lemma_class_run(m, pd, p, w);
        let z = run(pd.delta, p, w)->0;
        crate::dfa::lemma_run_stays(pd, p, w);
        lemma_class_accept(m, pd, z);
        assert(run(m.delta, x, w) is Some && m.accept.contains(run(m.delta, x, w)->0));
    }
    assert forall|x: Seq<char>, y: Seq<char>| m.states.contains(x) && m.states.contains(y) && #[trigger] equivalent(m, x, y) implies x == y by {
        let p1 = choose|p: Seq<char>| pd.states.contains(p) && x == encode(eq_class(pd, p));
        let p2 = choose|p: Seq<char>| pd.states.contains(p) && y == encode(eq_class(pd, p));
        assert forall|w: Seq<Seq<char>>| #[trigger] accepts_from(pd, p1, w) == accepts_from(pd, p2, w) by {
            lemma_class_run(m, pd, p1, w);
            lemma_class_run(m, pd, p2, w);
            crate::dfa::lemma_run_stays(pd, p1, w);
            crate::dfa::lemma_run_stays(pd, p2, w);
            if run(pd.delta, p1, w) is Some {
                lemma_class_accept(m, pd, run(pd.delta, p1, w)->0);
            }
            if run(pd.delta, p2, w) is Some {
                lemma_class_accept(m, pd, run(pd.delta, p2, w)->0);
            }
            assert(accepts_from(m, x, w) == accepts_from(m, y, w));
        }
        lemma_same_class(pd, p1, p2);
    }
}

impl DeterministicFiniteAutomata {
    /// Removes the unreachable states, then the non-productive ones, then
    /// merges equivalent states. The result accepts exactly the words this
    /// automaton accepts.
    pub fn minimize(&self) -> (r: Self)
        requires
            minimizable(self@),
        ensures
            is_minimization(r@, self@),
    {
        let reachable = self.remove_unreachable_states();
        let pruned = reachable.remove_non_productive_states();
        proof {
            lemma_pruned_live_gaps(self@, reachable@, pruned@);
        }
        let r = pruned.remove_equivalent_states();
        proof {
            assert forall|w: Seq<Seq<char>>| accepts(r@, w) == accepts(self@, w) by {
                assert(accepts(r@, w) == accepts(pruned@, w));
                assert(accepts(pruned@, w) == accepts(reachable@, w));
            }
            assert(pruned@.states.finite()) by {
                labels(pruned.states@).lemma_cardinality_of_set();
            }
            lemma_minimal(self@, reachable@, pruned@, r@);
            crate::codec::lemma_members_nested(r@.states);
        }
        r
    }
}

/// Minimizing twice accepts the same words as minimizing once.
pub proof fn lemma_minimize_idempotent(d: DfaView, once: DfaView, twice: DfaView)
    requires
        minimizable(d),
        is_minimization(once, d),
        is_minimization(twice, once),
    ensures
        minimizable(once),
        forall|w: Seq<Seq<char>>| accepts(twice, w) == accepts(once, w),
{
}

} // verus!
