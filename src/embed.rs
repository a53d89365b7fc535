//! Preparing a deterministic automaton for a combination with another: its
//! states are renamed apart with a one-character tag, and its moves are
//! completed over a larger alphabet with a rejecting sink.
use vstd::prelude::*;
use crate::codec::{depth, is_member_label, is_nested_label, is_plain, labels, nested_from};
use crate::collection::{copy_labels, distinct_labels, lemma_set_of_index, lemma_set_of_push, set_of};
use crate::dfa::{accepts, dfa_wf, find_transition, run, table, DeterministicFiniteAutomata, DfaView, Transition};

verus! {

/// The state `q` renamed with the tag: `tag(q)`.
pub open spec fn tagged(tag: Seq<char>, q: Seq<char>) -> Seq<char> {
    tag + seq!['('] + q + seq![')']
}

/// `q` from `tag(q)`.
pub open spec fn untag(x: Seq<char>) -> Seq<char> {
    x.subrange(2, x.len() - 1)
}

/// Where the prepared automaton moves from `x` on `a`: the renamed target
/// of the original move, or the sink (the tag alone) where there is none.
pub open spec fn prepared_move(d: DfaView, tag: Seq<char>, x: Seq<char>, a: Seq<char>) -> Seq<char> {
    if x == tag {
        tag
    } else if d.delta.contains_key((untag(x), a)) {
        tagged(tag, d.delta[(untag(x), a)])
    } else {
        tag
    }
}

/// `e` is `d` with its states renamed by `tag` and its moves completed over
/// `sigma`: every missing move goes to the sink `tag`, which loops on every
/// symbol and does not accept.
pub open spec fn is_prepared(e: DfaView, d: DfaView, tag: Seq<char>, sigma: Set<Seq<char>>) -> bool {
    &&& e.states == d.states.map(|q: Seq<char>| tagged(tag, q)).insert(tag)
    &&& e.alphabet == sigma
    &&& e.start == tagged(tag, d.start)
    &&& e.accept == d.accept.map(|q: Seq<char>| tagged(tag, q))
    &&& e.delta == Map::new(
        |k: (Seq<char>, Seq<char>)| e.states.contains(k.0) && sigma.contains(k.1),
        |k: (Seq<char>, Seq<char>)| prepared_move(d, tag, k.0, k.1),
    )
}

/// A one-character tag that is neither a parenthesis nor a comma.
pub open spec fn is_tag(tag: Seq<char>) -> bool {
    tag.len() == 1 && is_plain(tag)
}

fn tag_label(tag: &str, q: &str) -> (r: String)
    ensures
        r@ == tagged(tag@, q@),
{
    proof {
        reveal_strlit("(");
        reveal_strlit(")");
    }
    let mut r = String::from_str(tag);
    r.append("(");
    r.append(q);
    r.append(")");
    r
}

proof fn lemma_tagged_member(tag: Seq<char>, q: Seq<char>)
    requires
        is_tag(tag),
        is_nested_label(q),
    ensures
        is_member_label(tagged(tag, q)),
        untag(tagged(tag, q)) == q,
        tagged(tag, q) != tag,
{
    crate::codec::lemma_plain_member(tag);
    let open = seq!['('];
    let close = seq![')'];
    assert(depth(open) == 1 && nested_from(open, 0)) by {
        reveal_with_fuel(depth, 2);
        reveal_with_fuel(nested_from, 2);
        assert(open.drop_first() =~= Seq::<char>::empty());
    }
    assert(depth(close) == -1 && nested_from(close, 1)) by {
        reveal_with_fuel(depth, 2);
        reveal_with_fuel(nested_from, 2);
        assert(close.drop_first() =~= Seq::<char>::empty());
    }
    crate::codec::lemma_nested_mono_pub(q, 0, 1);
    crate::codec::lemma_nested_concat(tag, open, 0);
    crate::codec::lemma_depth_concat(tag, open);
    crate::codec::lemma_nested_concat(tag + open, q, 0);
    crate::codec::lemma_depth_concat(tag + open, q);
    crate::codec::lemma_nested_concat(tag + open + q, close, 0);
    crate::codec::lemma_depth_concat(tag + open + q, close);
    assert(untag(tagged(tag, q)) =~= q);
    assert(tagged(tag, q).len() != tag.len());
}

proof fn lemma_tagged_injective(tag: Seq<char>, p: Seq<char>, q: Seq<char>)
    requires
        tag.len() == 1,
        tagged(tag, p) == tagged(tag, q),
    ensures
        p == q,
{
    assert(untag(tagged(tag, p)) =~= p);
    assert(untag(tagged(tag, q)) =~= q);
}

/// Reading a word over `sigma` in the prepared automaton follows the
/// original, and falls into the sink where the original has no move.
proof fn lemma_prepared_run(e: DfaView, d: DfaView, tag: Seq<char>, sigma: Set<Seq<char>>, x: Seq<char>, w: Seq<Seq<char>>)
    requires
        is_prepared(e, d, tag, sigma),
        is_tag(tag),
        dfa_wf(d),
        forall|q: Seq<char>| d.states.contains(q) ==> is_nested_label(q),
        e.states.contains(x),
        forall|i: int| 0 <= i < w.len() ==> sigma.contains(#[trigger] w[i]),
    ensures
        x == tag ==> run(e.delta, x, w) == Some(tag),
        x != tag ==> run(e.delta, x, w) == match run(d.delta, untag(x), w) {
            Some(y) => Some(tagged(tag, y)),
            None => Some(tag),
        },
    decreases w.len(),
{
    if w.len() > 0 {
        let a = w[0];
        assert(sigma.contains(a));
        assert(e.delta.contains_key((x, a)));
        let y = prepared_move(d, tag, x, a);
        assert(forall|i: int| 0 <= i < w.drop_first().len() ==> sigma.contains(#[trigger] w.drop_first()[i])) by {
            assert forall|i: int| 0 <= i < w.drop_first().len() implies sigma.contains(#[trigger] w.drop_first()[i]) by {
                assert(w.drop_first()[i] == w[i + 1]);
            }
        }
        if x != tag {
            let p = choose|p: Seq<char>| d.states.contains(p) && tagged(tag, p) == x;
            lemma_tagged_member(tag, p);
            if d.delta.contains_key((p, a)) {
                let t = d.delta[(p, a)];
                lemma_tagged_member(tag, t);
                assert(e.states.contains(y));
                lemma_prepared_run(e, d, tag, sigma, y, w.drop_first());
            } else {
                lemma_prepared_run(e, d, tag, sigma, tag, w.drop_first());
                assert(run(d.delta, p, w) is None);
            }
        } else {
            lemma_prepared_run(e, d, tag, sigma, tag, w.drop_first());
        }
    }
}

/// The prepared automaton accepts the words the original accepts, is well
/// formed, total over `sigma`, and its states are member labels.
pub proof fn lemma_prepared(e: DfaView, d: DfaView, tag: Seq<char>, sigma: Set<Seq<char>>)
    requires
        is_prepared(e, d, tag, sigma),
        is_tag(tag),
        dfa_wf(d),
        d.alphabet.subset_of(sigma),
        forall|q: Seq<char>| d.states.contains(q) ==> is_nested_label(q),
    ensures
        forall|w: Seq<Seq<char>>| #[trigger] accepts(e, w) == accepts(d, w),
        dfa_wf(e),
        crate::boolean::is_total(e),
        forall|q: Seq<char>| e.states.contains(q) ==> is_member_label(q),
        forall|q: Seq<char>| #[trigger] e.states.contains(q) ==> q[0] == tag[0],
{
    lemma_tagged_member(tag, d.start);
    assert(e.states.contains(e.start));
    assert forall|x: Seq<char>| e.accept.contains(x) implies e.states.contains(x) by {
        let q = choose|q: Seq<char>| d.accept.contains(q) && tagged(tag, q) == x;
    }
    assert forall|k: (Seq<char>, Seq<char>)| #[trigger] e.delta.contains_key(k) implies e.states.contains(k.0)
        && e.alphabet.contains(k.1) && e.states.contains(e.delta[k]) by {
        if k.0 != tag {
            let p = choose|p: Seq<char>| d.states.contains(p) && tagged(tag, p) == k.0;
            lemma_tagged_member(tag, p);
            if d.delta.contains_key((p, k.1)) {
                assert(d.states.contains(d.delta[(p, k.1)]));
            }
        }
    }
    assert forall|q: Seq<char>| e.states.contains(q) implies is_member_label(q) by {
        if q == tag {
            crate::codec::lemma_plain_member(tag);
        } else {
            let p = choose|p: Seq<char>| d.states.contains(p) && tagged(tag, p) == q;
            lemma_tagged_member(tag, p);
        }
    }
    assert forall|q: Seq<char>| #[trigger] e.states.contains(q) implies q[0] == tag[0] by {
        if q != tag {
            let p = choose|p: Seq<char>| d.states.contains(p) && tagged(tag, p) == q;
        }
    }
    assert forall|w: Seq<Seq<char>>| #[trigger] accepts(e, w) == accepts(d, w) by {
        if forall|i: int| 0 <= i < w.len() ==> sigma.contains(#[trigger] w[i]) {
            lemma_tagged_member(tag, d.start);
            lemma_prepared_run(e, d, tag, sigma, e.start, w);
            crate::dfa::lemma_run_stays(d, d.start, w);
            match run(d.delta, d.start, w) {
                Some(y) => {
                    lemma_tagged_member(tag, y);
                    if e.accept.contains(tagged(tag, y)) {
                        let q = choose|q: Seq<char>| d.accept.contains(q) && tagged(tag, q) == tagged(tag, y);
                        lemma_tagged_injective(tag, q, y);
                    }
                },
                None => {
                    if e.accept.contains(tag) {
                        let q = choose|q: Seq<char>| d.accept.contains(q) && tagged(tag, q) == tag;
                        lemma_tagged_member(tag, q);
                    }
                },
            }
        } else {
            let i = choose|i: int| 0 <= i < w.len() && !sigma.contains(#[trigger] w[i]);
            crate::dfa::lemma_run_reads_alphabet(d, d.start, w, i);
            crate::dfa::lemma_run_reads_alphabet(e, e.start, w, i);
        }
    }
}

impl DeterministicFiniteAutomata {
    /// This automaton with every state `q` renamed `tag(q)`, and its
    /// moves completed over `alphabet`: missing moves go to the sink `tag`,
    /// which loops on every symbol and does not accept.
    pub fn prepared(&self, tag: &str, alphabet: &Vec<String>) -> (r: Self)
        requires
            is_tag(tag@),
            forall|q: Seq<char>| self@.states.contains(q) ==> is_nested_label(q),
        ensures
            is_prepared(r@, self@, tag@, set_of(alphabet@)),
    {
        let ghost d = self@;
        let ghost t = tag@;
        let ghost sigma = set_of(alphabet@);
        let qs = distinct_labels(&self.states);
        let syms = distinct_labels(alphabet);
        let mut states: Vec<String> = Vec::new();
        let mut i: usize = 0;
        proof {
            assert(set_of(states@) =~= set_of(qs@.take(0)).map(|q: Seq<char>| tagged(t, q)));
        }
        while i < qs.len()
            invariant
                t == tag@,
                i <= qs.len(),
                set_of(states@) == set_of(qs@.take(i as int)).map(|q: Seq<char>| tagged(t, q)),
            decreases qs.len() - i,
        {
            let x = tag_label(tag, qs[i].as_str());
            let ghost before = set_of(qs@.take(i as int));
            proof {
                lemma_set_of_push(states@, x);
                assert(qs@.take(i + 1) =~= qs@.take(i as int).push(qs@[i as int]));
                lemma_set_of_push(qs@.take(i as int), qs@[i as int]);
            }
            states.push(x);
            proof {
                assert forall|y: Seq<char>| set_of(states@).contains(y) <==> set_of(qs@.take(i + 1)).map(|q: Seq<char>| tagged(t, q)).contains(y) by {
                    if y == x@ {
                        assert(set_of(qs@.take(i + 1)).contains(qs@[i as int]@));
                    } else if set_of(states@).contains(y) {
                        let q = choose|q: Seq<char>| before.contains(q) && tagged(t, q) == y;
                        assert(set_of(qs@.take(i + 1)).contains(q));
                    }
                    if set_of(qs@.take(i + 1)).map(|q: Seq<char>| tagged(t, q)).contains(y) {
                        let q = choose|q: Seq<char>| set_of(qs@.take(i + 1)).contains(q) && tagged(t, q) == y;
                        if q != qs@[i as int]@ {
                            assert(before.contains(q));
                            assert(before.map(|q: Seq<char>| tagged(t, q)).contains(y));
                        }
                    }
                }
                assert(set_of(states@) =~= set_of(qs@.take(i + 1)).map(|q: Seq<char>| tagged(t, q)));
            }
            i = i + 1;
        }
        let sink = String::from_str(tag);
        proof {
            assert(qs@.take(i as int) =~= qs@);
            lemma_set_of_push(states@, sink);
        }
        let ghost est = set_of(states@).insert(t);
        states.push(sink);
        let ghost m = Map::new(
            |k: (Seq<char>, Seq<char>)| est.contains(k.0) && sigma.contains(k.1),
            |k: (Seq<char>, Seq<char>)| prepared_move(d, t, k.0, k.1),
        );
        let ghost mut done: Set<(Seq<char>, Seq<char>)> = Set::empty();
        let mut out: Vec<Transition> = Vec::new();
        proof {
            assert(table(out@) =~= Map::new(|k: (Seq<char>, Seq<char>)| done.contains(k), |k| m[k]));
        }
        // The moves of the renamed states.
        let mut x: usize = 0;
        while x < qs.len()
            invariant
                d == self@,
                t == tag@,
                is_tag(t),
                forall|q: Seq<char>| d.states.contains(q) ==> is_nested_label(q),
                sigma == set_of(alphabet@),
                set_of(syms@) == sigma,
                set_of(qs@) == d.states,
                est == d.states.map(|q: Seq<char>| tagged(t, q)).insert(t),
                m == Map::new(
                    |k: (Seq<char>, Seq<char>)| est.contains(k.0) && sigma.contains(k.1),
                    |k: (Seq<char>, Seq<char>)| prepared_move(d, t, k.0, k.1),
                ),
                table(out@) == Map::new(|k: (Seq<char>, Seq<char>)| done.contains(k), |k| m[k]),
                forall|k: (Seq<char>, Seq<char>)| #[trigger] done.contains(k) ==> m.contains_key(k),
                x <= qs.len(),
                forall|y: int, b: int| 0 <= y < x && 0 <= b < syms.len() ==> done.contains((tagged(t, #[trigger] qs@[y]@), #[trigger] syms@[b]@)),
            decreases qs.len() - x,
        {
            let from = tag_label(tag, qs[x].as_str());
            let ghost fx = from@;
            proof {
                lemma_set_of_index(qs@, x as int);
                assert(est.contains(fx));
                lemma_tagged_member(t, qs@[x as int]@);
            }
            let mut b: usize = 0;
            while b < syms.len()
                invariant
                    d == self@,
                    t == tag@,
                    is_tag(t),
                    forall|q: Seq<char>| d.states.contains(q) ==> is_nested_label(q),
                    sigma == set_of(alphabet@),
                    set_of(syms@) == sigma,
                    set_of(qs@) == d.states,
                    est == d.states.map(|q: Seq<char>| tagged(t, q)).insert(t),
                    m == Map::new(
                        |k: (Seq<char>, Seq<char>)| est.contains(k.0) && sigma.contains(k.1),
                        |k: (Seq<char>, Seq<char>)| prepared_move(d, t, k.0, k.1),
                    ),
                    table(out@) == Map::new(|k: (Seq<char>, Seq<char>)| done.contains(k), |k| m[k]),
                    forall|k: (Seq<char>, Seq<char>)| #[trigger] done.contains(k) ==> m.contains_key(k),
                    from@ == fx,
                    est.contains(fx),
                    x < qs.len(),
                    fx == tagged(t, qs@[x as int]@) && untag(fx) == qs@[x as int]@ && fx != t,
                    b <= syms.len(),
                    forall|y: int, c: int| 0 <= y < x && 0 <= c < syms.len() ==> done.contains((tagged(t, #[trigger] qs@[y]@), #[trigger] syms@[c]@)),
                    forall|c: int| 0 <= c < b ==> done.contains((fx, #[trigger] syms@[c]@)),
                decreases syms.len() - b,
            {
                let to = match find_transition(&self.transition_function, qs[x].as_str(), syms[b].as_str()) {
                    Some(j) => tag_label(tag, self.transition_function[j].to.as_str()),
                    None => String::from_str(tag),
                };
                let e = Transition { from: from.clone(), symbol: syms[b].clone(), to };
                let ghost k = (fx, syms@[b as int]@);
                proof {
                    lemma_set_of_index(syms@, b as int);
                    assert(m.contains_key(k));
                    assert(e.to@ == m[k]);
                    assert(out@.push(e).drop_last() =~= out@);
                }
                out.push(e);
                proof {
                    done = done.insert(k);
                    assert(table(out@) =~= Map::new(|k: (Seq<char>, Seq<char>)| done.contains(k), |k| m[k]));
                }
                b = b + 1;
            }
            x = x + 1;
        }
        // The moves of the sink.
        let mut b: usize = 0;
        while b < syms.len()
            invariant
                d == self@,
                t == tag@,
                is_tag(t),
                forall|q: Seq<char>| d.states.contains(q) ==> is_nested_label(q),
                sigma == set_of(alphabet@),
                set_of(syms@) == sigma,
                set_of(qs@) == d.states,
                est == d.states.map(|q: Seq<char>| tagged(t, q)).insert(t),
                m == Map::new(
                    |k: (Seq<char>, Seq<char>)| est.contains(k.0) && sigma.contains(k.1),
                    |k: (Seq<char>, Seq<char>)| prepared_move(d, t, k.0, k.1),
                ),
                table(out@) == Map::new(|k: (Seq<char>, Seq<char>)| done.contains(k), |k| m[k]),
                forall|k: (Seq<char>, Seq<char>)| #[trigger] done.contains(k) ==> m.contains_key(k),
                b <= syms.len(),
                forall|y: int, c: int| 0 <= y < qs.len() && 0 <= c < syms.len() ==> done.contains((tagged(t, #[trigger] qs@[y]@), #[trigger] syms@[c]@)),
                forall|c: int| 0 <= c < b ==> done.contains((t, #[trigger] syms@[c]@)),
            decreases syms.len() - b,
        {
            let e = Transition { from: String::from_str(tag), symbol: syms[b].clone(), to: String::from_str(tag) };
            let ghost k = (t, syms@[b as int]@);
            proof {
                lemma_set_of_index(syms@, b as int);
                assert(est.contains(t));
                assert(m.contains_key(k));
                assert(e.to@ == m[k]);
                assert(out@.push(e).drop_last() =~= out@);
            }
            out.push(e);
            proof {
                done = done.insert(k);
                assert(table(out@) =~= Map::new(|k: (Seq<char>, Seq<char>)| done.contains(k), |k| m[k]));
            }
            b = b + 1;
        }
        proof {
            assert forall|k: (Seq<char>, Seq<char>)| m.contains_key(k) implies done.contains(k) by {
                let b = choose|b: int| 0 <= b < labels(syms@).len() && labels(syms@)[b] == k.1;
                if k.0 != t {
                    let p = choose|p: Seq<char>| d.states.contains(p) && tagged(t, p) == k.0;
                    let y = choose|y: int| 0 <= y < labels(qs@).len() && labels(qs@)[y] == p;
                    assert(done.contains((tagged(t, qs@[y]@), syms@[b]@)));
                } else {
                    assert(done.contains((t, syms@[b]@)));
                }
            }
            assert(table(out@) =~= m);
        }
        let mut accept_states: Vec<String> = Vec::new();
        let mut y: usize = 0;
        proof {
            assert(set_of(accept_states@) =~= set_of(self.accept_states@.take(0)).map(|q: Seq<char>| tagged(t, q)));
        }
        while y < self.accept_states.len()
            invariant
                t == tag@,
                y <= self.accept_states.len(),
                set_of(accept_states@) == set_of(self.accept_states@.take(y as int)).map(|q: Seq<char>| tagged(t, q)),
            decreases self.accept_states.len() - y,
        {
            let z = tag_label(tag, self.accept_states[y].as_str());
            let ghost before = set_of(self.accept_states@.take(y as int));
            let ghost v = self.accept_states@;
            proof {
                lemma_set_of_push(accept_states@, z);
                assert(v.take(y + 1) =~= v.take(y as int).push(v[y as int]));
                lemma_set_of_push(v.take(y as int), v[y as int]);
            }
            accept_states.push(z);
            proof {
                assert forall|w: Seq<char>| set_of(accept_states@).contains(w) <==> set_of(v.take(y + 1)).map(|q: Seq<char>| tagged(t, q)).contains(w) by {
                    if w == z@ {
                        assert(set_of(v.take(y + 1)).contains(v[y as int]@));
                    } else if set_of(accept_states@).contains(w) {
                        let q = choose|q: Seq<char>| before.contains(q) && tagged(t, q) == w;
                        assert(set_of(v.take(y + 1)).contains(q));
                    }
                    if set_of(v.take(y + 1)).map(|q: Seq<char>| tagged(t, q)).contains(w) {
                        let q = choose|q: Seq<char>| set_of(v.take(y + 1)).contains(q) && tagged(t, q) == w;
                        if q != v[y as int]@ {
                            assert(before.contains(q));
                            assert(before.map(|q: Seq<char>| tagged(t, q)).contains(w));
                        }
                    }
                }
                assert(set_of(accept_states@) =~= set_of(v.take(y + 1)).map(|q: Seq<char>| tagged(t, q)));
            }
            y = y + 1;
        }
        proof {
            assert(self.accept_states@.take(y as int) =~= self.accept_states@);
        }
        DeterministicFiniteAutomata {
            states,
            alphabet: copy_labels(alphabet),
            transition_function: out,
            start_state: tag_label(tag, self.start_state.as_str()),
            accept_states,
        }
    }
}

} // verus!
