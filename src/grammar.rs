//! Right-linear regular grammars and their correspondence with automata.
use vstd::prelude::*;
use crate::codec::{labels, str_eq};
use crate::collection::{
    add_label, contains_label, copy_labels, distinct_labels, lemma_set_of_index, lemma_set_of_push, set_of,
};
use crate::dfa::{find_transition, key_of, lemma_table_entry, lemma_table_key, table, DeterministicFiniteAutomata, DfaView};
use crate::nfa::{eclose, eps, eps_path, moves, nfa_wf, ntable, NfaTransition, NfaView, NondeterministicFiniteAutomata};
use crate::dfa::{accepts, dfa_wf, run};
use crate::subset::{nfa_accepts, simulate, subset_step};

verus! {

/// The right-hand sides of one variable: each a terminal, or a terminal
/// followed by a variable (`a` or `a<q>`).
pub struct Rule {
    pub variable: String,
    pub productions: Vec<String>,
}

/// A right-linear grammar: variables are written `<name>`.
pub struct RegularGrammar {
    pub variables: Vec<String>,
    pub terminals: Vec<String>,
    pub rules: Vec<Rule>,
    pub start_variable: String,
}

/// The mathematical content of a regular grammar.
pub struct RgView {
    pub variables: Set<Seq<char>>,
    pub terminals: Set<Seq<char>>,
    pub rules: Map<Seq<char>, Set<Seq<char>>>,
    pub start: Seq<char>,
}

/// The productions of each variable; a later rule for a variable replaces an earlier one.
pub open spec fn rule_map(rs: Seq<Rule>) -> Map<Seq<char>, Set<Seq<char>>>
    decreases rs.len(),
{
    if rs.len() == 0 {
        Map::empty()
    } else {
        rule_map(rs.drop_last()).insert(rs.last().variable@, set_of(rs.last().productions@))
    }
}

impl View for RegularGrammar {
    type V = RgView;

    open spec fn view(&self) -> RgView {
        RgView {
            variables: set_of(self.variables@),
            terminals: set_of(self.terminals@),
            rules: rule_map(self.rules@),
            start: self.start_variable@,
        }
    }
}

/// `<q>`: the variable of state `q`.
pub open spec fn wrap(q: Seq<char>) -> Seq<char> {
    seq!['<'] + q + seq!['>']
}

/// `q` from `<q>`.
pub open spec fn unwrap(v: Seq<char>) -> Seq<char> {
    v.subrange(1, v.len() - 1)
}

pub open spec fn is_wrapped(v: Seq<char>) -> bool {
    v.len() >= 2 && v[0] == '<' && v[v.len() - 1] == '>'
}

/// The productions of the variable of state `s`: `a<t>` for each move from
/// `s` on `a` to `t`, and `a` as well where `t` accepts.
pub open spec fn dfa_productions(d: DfaView, s: Seq<char>) -> Set<Seq<char>> {
    Set::new(
        |p: Seq<char>|
            exists|a: Seq<char>|
                #[trigger] d.delta.contains_key((s, a)) && (p == a + wrap(d.delta[(s, a)]) || (p == a
                    && d.accept.contains(d.delta[(s, a)]))),
    )
}

/// The rules of the grammar of an automaton: one for each state with a move.
pub open spec fn dfa_rules(d: DfaView) -> Map<Seq<char>, Set<Seq<char>>> {
    Map::new(
        |v: Seq<char>| exists|k: (Seq<char>, Seq<char>)| #[trigger] d.delta.contains_key(k) && v == wrap(k.0),
        |v: Seq<char>| dfa_productions(d, unwrap(v)),
    )
}

proof fn lemma_unwrap_wrap(q: Seq<char>)
    ensures
        unwrap(wrap(q)) == q,
        is_wrapped(wrap(q)),
{
    assert(unwrap(wrap(q)) =~= q);
}

/// `<q>` as a string.
fn wrap_label(q: &str) -> (r: String)
    ensures
        r@ == wrap(q@),
{
    proof {
        reveal_strlit("<");
        reveal_strlit(">");
    }
    let mut r = String::from_str("<");
    r.append(q);
    r.append(">");
    r
}

proof fn lemma_rule_map_push(rs: Seq<Rule>, r: Rule)
    ensures
        rule_map(rs.push(r)) == rule_map(rs).insert(r.variable@, set_of(r.productions@)),
{
    assert(rs.push(r).drop_last() =~= rs);
}

impl RegularGrammar {
    /// The grammar with no variables, terminals or rules and an empty start variable.
    pub fn new() -> (r: Self)
        ensures
            r@.variables.is_empty(),
            r@.terminals.is_empty(),
            r@.rules.is_empty(),
            r@.start.len() == 0,
    {
        let r = RegularGrammar {
            variables: Vec::new(),
            terminals: Vec::new(),
            rules: Vec::new(),
            start_variable: String::new(),
        };
        proof {
            assert(set_of(r.variables@) =~= Set::empty());
            assert(set_of(r.terminals@) =~= Set::empty());
            assert(rule_map(r.rules@) =~= Map::empty());
        }
        r
    }

    /// The grammar of a deterministic automaton: a variable `<s>` for each
    /// state `s`; for each move from `s` on `a` to `t`, the production
    /// `<s> -> a<t>`, and `<s> -> a` as well where `t` accepts.
    pub fn from_dfa(d: &DeterministicFiniteAutomata) -> (r: Self)
        ensures
            is_automaton_grammar(r@, d@),
    {
        let ghost dv = d@;
        let ts = &d.transition_function;
        let mut sources: Vec<String> = Vec::new();
        let mut j: usize = 0;
        while j < ts.len()
            invariant
                j <= ts.len(),
                labels(sources@).no_duplicates(),
                forall|x: Seq<char>| #[trigger] set_of(sources@).contains(x) <==> exists|m: int| 0 <= m < j && (#[trigger] ts@[m]).from@ == x,
            decreases ts.len() - j,
        {
            let ghost before = set_of(sources@);
            add_label(&mut sources, ts[j].from.clone());
            proof {
                assert forall|x: Seq<char>| #[trigger] set_of(sources@).contains(x) <==> exists|m: int| 0 <= m < j + 1 && (#[trigger] ts@[m]).from@ == x by {
                    if x == ts@[j as int].from@ {
                        assert(ts@[j as int].from@ == x);
                    }
                    if exists|m: int| 0 <= m < j + 1 && (#[trigger] ts@[m]).from@ == x {
                        let m = choose|m: int| 0 <= m < j + 1 && (#[trigger] ts@[m]).from@ == x;
                        if m < j {
                            assert(before.contains(x));
                        }
                    }
                }
            }
            j = j + 1;
        }
        let ghost rm = dfa_rules(dv);
        let mut rules: Vec<Rule> = Vec::new();
        let mut i: usize = 0;
        proof {
            assert(rule_map(rules@) =~= Map::new(|v: Seq<char>| rm.contains_key(v) && exists|x: int| 0 <= x < 0 && v == wrap(sources@[x]@), |v: Seq<char>| rm[v]));
        }
        while i < sources.len()
            invariant
                dv == d@,
                rm == dfa_rules(dv),
                dv.delta == table(ts@),
                labels(sources@).no_duplicates(),
                forall|x: Seq<char>| #[trigger] set_of(sources@).contains(x) <==> exists|m: int| 0 <= m < ts.len() && (#[trigger] ts@[m]).from@ == x,
                i <= sources.len(),
                rule_map(rules@) == Map::new(|v: Seq<char>| rm.contains_key(v) && exists|x: int| 0 <= x < i && v == wrap(sources@[x]@), |v: Seq<char>| rm[v]),
            decreases sources.len() - i,
        {
            let s = &sources[i];
            let mut prods: Vec<String> = Vec::new();
            let mut m: usize = 0;
            let ghost target = dfa_productions(dv, s@);
            while m < ts.len()
                invariant
                    dv == d@,
                    dv.delta == table(ts@),
                    target == dfa_productions(dv, s@),
                    m <= ts.len(),
                    set_of(prods@) == Set::new(|p: Seq<char>| exists|a: Seq<char>| target.contains(p) && (exists|e: int| 0 <= e < m && #[trigger] key_of(ts@[e]) == (s@, a)) && (p == a + wrap(dv.delta[(s@, a)]) || (p == a && dv.accept.contains(dv.delta[(s@, a)])))),
                decreases ts.len() - m,
            {
                let ghost prev = set_of(prods@);
                if str_eq(ts[m].from.as_str(), s.as_str()) {
                    proof {
                        lemma_table_entry(ts@, m as int);
                    }
                    let e = find_transition(ts, s.as_str(), ts[m].symbol.as_str()).unwrap();
                    let t = &ts[e].to;
                    let wrapped = wrap_label(t.as_str());
                    let mut step = ts[m].symbol.clone();
                    step.append(wrapped.as_str());
                    proof {
                        lemma_set_of_push(prods@, step);
                    }
                    prods.push(step);
                    if contains_label(&d.accept_states, t.as_str()) {
                        proof {
                            lemma_set_of_push(prods@, ts@[m as int].symbol);
                        }
                        prods.push(ts[m].symbol.clone());
                    }
                }
                proof {
                    let a0 = ts@[m as int].symbol@;
                    assert forall|p: Seq<char>| set_of(prods@).contains(p) <==> (exists|a: Seq<char>| target.contains(p) && (exists|e: int| 0 <= e < m + 1 && #[trigger] key_of(ts@[e]) == (s@, a)) && (p == a + wrap(dv.delta[(s@, a)]) || (p == a && dv.accept.contains(dv.delta[(s@, a)])))) by {
                        if set_of(prods@).contains(p) && !prev.contains(p) {
                            assert(key_of(ts@[m as int]) == (s@, a0));
                            assert(dv.delta.contains_key((s@, a0)));
                        }
                        if exists|a: Seq<char>| target.contains(p) && (exists|e: int| 0 <= e < m + 1 && #[trigger] key_of(ts@[e]) == (s@, a)) && (p == a + wrap(dv.delta[(s@, a)]) || (p == a && dv.accept.contains(dv.delta[(s@, a)]))) {
                            let a = choose|a: Seq<char>| target.contains(p) && (exists|e: int| 0 <= e < m + 1 && #[trigger] key_of(ts@[e]) == (s@, a)) && (p == a + wrap(dv.delta[(s@, a)]) || (p == a && dv.accept.contains(dv.delta[(s@, a)])));
                            let e = choose|e: int| 0 <= e < m + 1 && #[trigger] key_of(ts@[e]) == (s@, a);
                            if e < m {
                                assert(prev.contains(p));
                            } else {
                                assert(a == a0);
                            }
                        }
                    }
                }
                m = m + 1;
            }
            proof {
                assert forall|p: Seq<char>| set_of(prods@).contains(p) <==> target.contains(p) by {
                    if target.contains(p) {
                        let a = choose|a: Seq<char>| #[trigger] dv.delta.contains_key((s@, a)) && (p == a + wrap(dv.delta[(s@, a)]) || (p == a && dv.accept.contains(dv.delta[(s@, a)])));
                        lemma_table_key(ts@, (s@, a));
                    }
                }
                assert(set_of(prods@) =~= target);
            }
            let rule = Rule { variable: wrap_label(s.as_str()), productions: prods };
            proof {
                lemma_rule_map_push(rules@, rule);
                lemma_set_of_index(sources@, i as int);
                let m0 = choose|m: int| 0 <= m < ts.len() && (#[trigger] ts@[m]).from@ == s@;
                lemma_table_entry(ts@, m0);
                assert(dv.delta.contains_key(key_of(ts@[m0])));
                assert(rm.contains_key(wrap(s@)));
                lemma_unwrap_wrap(s@);
            }
            rules.push(rule);
            proof {
                assert(rule_map(rules@) =~= Map::new(|v: Seq<char>| rm.contains_key(v) && exists|x: int| 0 <= x < i + 1 && v == wrap(sources@[x]@), |v: Seq<char>| rm[v]));
            }
            i = i + 1;
        }
        proof {
            assert forall|v: Seq<char>| rm.contains_key(v) implies exists|x: int| 0 <= x < sources.len() && v == wrap(sources@[x]@) by {
                let k = choose|k: (Seq<char>, Seq<char>)| #[trigger] dv.delta.contains_key(k) && v == wrap(k.0);
                lemma_table_key(ts@, k);
                let m = choose|m: int| 0 <= m < ts.len() && key_of(#[trigger] ts@[m]) == k;
                assert(set_of(sources@).contains(k.0));
                let x = choose|x: int| 0 <= x < labels(sources@).len() && labels(sources@)[x] == k.0;
            }
            assert(rule_map(rules@) =~= rm);
        }
        let mut variables: Vec<String> = Vec::new();
        let mut k: usize = 0;
        proof {
            assert(set_of(variables@) =~= set_of(d.states@.take(0)).map(|q: Seq<char>| wrap(q)));
        }
        while k < d.states.len()
            invariant
                k <= d.states.len(),
                set_of(variables@) == set_of(d.states@.take(k as int)).map(|q: Seq<char>| wrap(q)),
            decreases d.states.len() - k,
        {
            let v = wrap_label(d.states[k].as_str());
            proof {
                lemma_set_of_push(variables@, v);
                assert(d.states@.take(k + 1) =~= d.states@.take(k as int).push(d.states@[k as int]));
                lemma_set_of_push(d.states@.take(k as int), d.states@[k as int]);
            }
            variables.push(v);
            proof {
                let before = set_of(d.states@.take(k as int));
                assert forall|x: Seq<char>| set_of(variables@).contains(x) <==> set_of(d.states@.take(k + 1)).map(|q: Seq<char>| wrap(q)).contains(x) by {
                    if x == wrap(d.states@[k as int]@) {
                        lemma_set_of_index(d.states@.take(k + 1), k as int);
                        assert(set_of(d.states@.take(k + 1)).contains(d.states@[k as int]@));
                    }
                    if set_of(variables@).contains(x) && x != wrap(d.states@[k as int]@) {
                        assert(before.map(|q: Seq<char>| wrap(q)).contains(x));
                        let q = choose|q: Seq<char>| before.contains(q) && wrap(q) == x;
                        assert(set_of(d.states@.take(k + 1)).contains(q));
                    }
                    if set_of(d.states@.take(k + 1)).map(|q: Seq<char>| wrap(q)).contains(x) {
                        let q = choose|q: Seq<char>| set_of(d.states@.take(k + 1)).contains(q) && wrap(q) == x;
                        if q != d.states@[k as int]@ {
                            assert(before.contains(q));
                            assert(before.map(|q: Seq<char>| wrap(q)).contains(x));
                        }
                    }
                }
                assert(set_of(variables@) =~= set_of(d.states@.take(k + 1)).map(|q: Seq<char>| wrap(q)));
            }
            k = k + 1;
        }
        proof {
            assert(d.states@.take(k as int) =~= d.states@);
        }
        RegularGrammar {
            variables,
            terminals: copy_labels(&d.alphabet),
            rules,
            start_variable: wrap_label(d.start_state.as_str()),
        }
    }
}

/// The label of the state that the grammar's terminal productions lead to.
pub open spec fn accept_label() -> Seq<char> {
    seq!['a', 'c', 'c', 'e', 'p', 't']
}

/// The productions of variable `v`.
pub open spec fn productions_of(g: RgView, v: Seq<char>) -> Set<Seq<char>> {
    if g.rules.contains_key(v) {
        g.rules[v]
    } else {
        Set::empty()
    }
}

/// Where the productions of `v` that begin with `a` lead: a lone terminal
/// to the accept state, `a<q>` to `q`.
pub open spec fn grammar_targets(g: RgView, v: Seq<char>, a: Seq<char>) -> Set<Seq<char>> {
    Set::new(
        |t: Seq<char>|
            exists|p: Seq<char>|
                #[trigger] productions_of(g, v).contains(p) && p.len() >= 1 && seq![p[0]] == a && ((p.len() == 1
                    && t == accept_label()) || (p.len() >= 3 && t == p.subrange(2, p.len() - 1))),
    )
}

/// The productions of the variable `v`, or none.
fn productions_for(rules: &Vec<Rule>, v: &str) -> (r: Vec<String>)
    ensures
        set_of(r@) == (if rule_map(rules@).contains_key(v@) {
            rule_map(rules@)[v@]
        } else {
            Set::empty()
        }),
{
    let mut i: usize = rules.len();
    while i > 0
        invariant
            i <= rules.len(),
            forall|j: int| i <= j < rules.len() ==> (#[trigger] rules@[j]).variable@ != v@,
        decreases i,
    {
        if str_eq(rules[i - 1].variable.as_str(), v) {
            proof {
                lemma_rule_map_suffix(rules@, i as int, v@);
                let p = rules@.take(i as int);
                assert(p.drop_last() =~= rules@.take(i - 1));
                assert(p.last() == rules@[i - 1]);
            }
            return copy_labels(&rules[i - 1].productions);
        }
        i = i - 1;
    }
    proof {
        lemma_rule_map_suffix(rules@, 0, v@);
        assert(rules@.take(0) =~= Seq::<Rule>::empty());
    }
    let r: Vec<String> = Vec::new();
    proof {
        assert(set_of(r@) =~= Set::empty());
    }
    r
}

proof fn lemma_rule_map_suffix(rs: Seq<Rule>, i: int, v: Seq<char>)
    requires
        0 <= i <= rs.len(),
        forall|j: int| i <= j < rs.len() ==> (#[trigger] rs[j]).variable@ != v,
    ensures
        rule_map(rs).contains_key(v) == rule_map(rs.take(i)).contains_key(v),
        rule_map(rs).contains_key(v) ==> rule_map(rs)[v] == rule_map(rs.take(i))[v],
    decreases rs.len() - i,
{
    if i == rs.len() {
        assert(rs.take(i) =~= rs);
    } else {
        let t = rs.drop_last();
        assert forall|j: int| i <= j < t.len() implies (#[trigger] t[j]).variable@ != v by {
            assert(t[j] == rs[j]);
        }
        lemma_rule_map_suffix(t, i, v);
        assert(t.take(i) =~= rs.take(i));
    }
}

/// The targets of the productions in `ps` that begin with `a`.
fn targets_for(ps: &Vec<String>, a: &String, accept: &String) -> (r: Vec<String>)
    requires
        accept@ == accept_label(),
    ensures
        set_of(r@) == Set::new(
            |t: Seq<char>|
                exists|p: Seq<char>|
                    #[trigger] set_of(ps@).contains(p) && p.len() >= 1 && seq![p[0]] == a@ && ((p.len() == 1
                        && t == accept_label()) || (p.len() >= 3 && t == p.subrange(2, p.len() - 1))),
        ),
{
    let ghost want = |q: Seq<String>| Set::new(
        |t: Seq<char>|
            exists|p: Seq<char>|
                #[trigger] set_of(q).contains(p) && p.len() >= 1 && seq![p[0]] == a@ && ((p.len() == 1
                    && t == accept_label()) || (p.len() >= 3 && t == p.subrange(2, p.len() - 1))),
    );
    let mut r: Vec<String> = Vec::new();
    let mut i: usize = 0;
    proof {
        assert(set_of(r@) =~= want(ps@.take(0)));
    }
    while i < ps.len()
        invariant
            accept@ == accept_label(),
            i <= ps.len(),
            want == (|q: Seq<String>| Set::new(
                |t: Seq<char>|
                    exists|p: Seq<char>|
                        #[trigger] set_of(q).contains(p) && p.len() >= 1 && seq![p[0]] == a@ && ((p.len() == 1
                            && t == accept_label()) || (p.len() >= 3 && t == p.subrange(2, p.len() - 1))),
            )),
            set_of(r@) == want(ps@.take(i as int)),
        decreases ps.len() - i,
    {
        let p = ps[i].as_str();
        let n = p.unicode_len();
        let ghost prev = set_of(r@);
        proof {
            assert(ps@.take(i + 1) =~= ps@.take(i as int).push(ps@[i as int]));
            lemma_set_of_push(ps@.take(i as int), ps@[i as int]);
        }
        let mut added = false;
        if n >= 1 {
            let first = p.substring_char(0, 1);
            proof {
                assert(first@ =~= seq![p@[0]]);
            }
            if str_eq(first, a.as_str()) {
                if n == 1 {
                    proof {
                        lemma_set_of_push(r@, *accept);
                    }
                    r.push(accept.clone());
                    added = true;
                } else if n >= 3 {
                    let t = String::from_str(p.substring_char(2, n - 1));
                    proof {
                        lemma_set_of_push(r@, t);
                    }
                    r.push(t);
                    added = true;
                }
            }
        }
        proof {
            let x = ps@[i as int]@;
            let fits = x.len() >= 1 && seq![x[0]] == a@ && (x.len() == 1 || x.len() >= 3);
            let newt = if x.len() == 1 { accept_label() } else { x.subrange(2, x.len() - 1) };
            assert(added == fits);
            if added {
                assert(set_of(r@) == prev.insert(newt));
            } else {
                assert(set_of(r@) == prev);
            }
            assert forall|t: Seq<char>| set_of(r@).contains(t) <==> want(ps@.take(i + 1)).contains(t) by {
                if want(ps@.take(i + 1)).contains(t) {
                    let p0 = choose|p0: Seq<char>| #[trigger] set_of(ps@.take(i + 1)).contains(p0) && p0.len() >= 1 && seq![p0[0]] == a@ && ((p0.len() == 1
                        && t == accept_label()) || (p0.len() >= 3 && t == p0.subrange(2, p0.len() - 1)));
                    if p0 != x {
                        assert(set_of(ps@.take(i as int)).contains(p0));
                        assert(want(ps@.take(i as int)).contains(t));
                    } else {
                        assert(fits && t == newt);
                    }
                }
                if set_of(r@).contains(t) {
                    if prev.contains(t) {
                        let p0 = choose|p0: Seq<char>| #[trigger] set_of(ps@.take(i as int)).contains(p0) && p0.len() >= 1 && seq![p0[0]] == a@ && ((p0.len() == 1
                            && t == accept_label()) || (p0.len() >= 3 && t == p0.subrange(2, p0.len() - 1)));
                        assert(set_of(ps@.take(i + 1)).contains(p0));
                    } else {
                        assert(set_of(ps@.take(i + 1)).contains(x));
                    }
                }
            }
            assert(set_of(r@) =~= want(ps@.take(i + 1)));
        }
        i = i + 1;
    }
    proof {
        assert(ps@.take(i as int) =~= ps@);
    }
    r
}

impl NondeterministicFiniteAutomata {
    /// The automaton of a right-linear grammar: a state `q` for each
    /// variable `<q>` and one more state `accept`, the only accept state; a
    /// production `<q> -> a<t>` moves from `q` on `a` to `t`, and `<q> -> a`
    /// moves from `q` on `a` to `accept`. No variable may be `<accept>`, so
    /// that the added state is new.
    pub fn from_grammar(g: &RegularGrammar) -> (r: Self)
        requires
            forall|v: Seq<char>| g@.variables.contains(v) ==> is_wrapped(v),
            g@.variables.contains(g@.start),
            !g@.variables.contains(wrap(accept_label())),
        ensures
            is_grammar_automaton(r@, g@),
            !g@.variables.map(|v: Seq<char>| unwrap(v)).contains(accept_label()),
    {
        proof {
            if g@.variables.map(|v: Seq<char>| unwrap(v)).contains(accept_label()) {
                let v = choose|v: Seq<char>| g@.variables.contains(v) && unwrap(v) == accept_label();
                assert(is_wrapped(v));
                assert(v =~= wrap(unwrap(v)));
            }
        }
        let ghost gv = g@;
        proof {
            reveal_strlit("accept");
        }
        let accept = String::from_str("accept");
        let vars = distinct_labels(&g.variables);
        let syms = distinct_labels(&g.terminals);
        let ghost m = Map::new(
            |k: (Seq<char>, Seq<char>)| exists|v: Seq<char>| gv.variables.contains(v) && k.0 == unwrap(v) && gv.terminals.contains(k.1),
            |k: (Seq<char>, Seq<char>)| grammar_targets(gv, wrap(k.0), k.1),
        );
        let ghost mut done: Set<(Seq<char>, Seq<char>)> = Set::empty();
        let mut out: Vec<NfaTransition> = Vec::new();
        let mut states: Vec<String> = Vec::new();
        proof {
            assert(ntable(out@) =~= Map::new(|k: (Seq<char>, Seq<char>)| done.contains(k), |k| m[k]));
            assert(set_of(states@) =~= Set::new(|q: Seq<char>| exists|x: int| 0 <= x < 0 && q == unwrap(vars@[x]@)));
        }
        let mut i: usize = 0;
        while i < vars.len()
            invariant
                gv == g@,
                forall|v: Seq<char>| gv.variables.contains(v) ==> is_wrapped(v),
                accept@ == accept_label(),
                set_of(vars@) == gv.variables,
                set_of(syms@) == gv.terminals,
                m == Map::new(
                    |k: (Seq<char>, Seq<char>)| exists|v: Seq<char>| gv.variables.contains(v) && k.0 == unwrap(v) && gv.terminals.contains(k.1),
                    |k: (Seq<char>, Seq<char>)| grammar_targets(gv, wrap(k.0), k.1),
                ),
                i <= vars.len(),
                ntable(out@) == Map::new(|k: (Seq<char>, Seq<char>)| done.contains(k), |k| m[k]),
                forall|k: (Seq<char>, Seq<char>)| #[trigger] done.contains(k) ==> m.contains_key(k),
                forall|x: int, b: int| 0 <= x < i && 0 <= b < syms.len() ==> done.contains((unwrap(#[trigger] vars@[x]@), #[trigger] syms@[b]@)),
                set_of(states@) == Set::new(|q: Seq<char>| exists|x: int| 0 <= x < i && q == unwrap(vars@[x]@)),
            decreases vars.len() - i,
        {
            let v = &vars[i];
            let vn = v.as_str().unicode_len();
            proof {
                lemma_set_of_index(vars@, i as int);
                assert(is_wrapped(v@));
            }
            let q = String::from_str(v.as_str().substring_char(1, vn - 1));
            let ps = productions_for(&g.rules, v.as_str());
            proof {
                assert(wrap(q@) =~= v@);
            }
            let mut a: usize = 0;
            while a < syms.len()
                invariant
                    gv == g@,
                    accept@ == accept_label(),
                    set_of(vars@) == gv.variables,
                    set_of(syms@) == gv.terminals,
                    m == Map::new(
                        |k: (Seq<char>, Seq<char>)| exists|v: Seq<char>| gv.variables.contains(v) && k.0 == unwrap(v) && gv.terminals.contains(k.1),
                        |k: (Seq<char>, Seq<char>)| grammar_targets(gv, wrap(k.0), k.1),
                    ),
                    i < vars.len(),
                    q@ == unwrap(vars@[i as int]@),
                    wrap(q@) == vars@[i as int]@,
                    gv.variables.contains(vars@[i as int]@),
                    set_of(ps@) == productions_of(gv, vars@[i as int]@),
                    a <= syms.len(),
                    ntable(out@) == Map::new(|k: (Seq<char>, Seq<char>)| done.contains(k), |k| m[k]),
                    forall|k: (Seq<char>, Seq<char>)| #[trigger] done.contains(k) ==> m.contains_key(k),
                    forall|x: int, b: int| 0 <= x < i && 0 <= b < syms.len() ==> done.contains((unwrap(#[trigger] vars@[x]@), #[trigger] syms@[b]@)),
                    forall|b: int| 0 <= b < a ==> done.contains((q@, #[trigger] syms@[b]@)),
                decreases syms.len() - a,
            {
                let ghost k = (q@, syms@[a as int]@);
                let to = targets_for(&ps, &syms[a], &accept);
                let t = NfaTransition { from: q.clone(), symbol: syms[a].clone(), to };
                proof {
                    lemma_set_of_index(syms@, a as int);
                    assert(m.contains_key(k));
                    assert(set_of(t.to@) =~= grammar_targets(gv, wrap(q@), syms@[a as int]@));
                    assert(out@.push(t).drop_last() =~= out@);
                }
                out.push(t);
                proof {
                    done = done.insert(k);
                    assert(ntable(out@) =~= Map::new(|k: (Seq<char>, Seq<char>)| done.contains(k), |k| m[k]));
                }
                a = a + 1;
            }
            let ghost before = set_of(states@);
            proof {
                lemma_set_of_push(states@, q);
            }
            states.push(q);
            proof {
                assert(set_of(states@) =~= Set::new(|q: Seq<char>| exists|x: int| 0 <= x < i + 1 && q == unwrap(vars@[x]@)));
            }
            i = i + 1;
        }
        let ghost before = set_of(states@);
        proof {
            lemma_set_of_push(states@, accept);
        }
        states.push(accept.clone());
        let mut accept_states: Vec<String> = Vec::new();
        accept_states.push(accept.clone());
        let sv = g.start_variable.as_str();
        let sn = sv.unicode_len();
        proof {
            assert(is_wrapped(g@.start));
        }
        let start = String::from_str(sv.substring_char(1, sn - 1));
        let r = NondeterministicFiniteAutomata {
            states,
            alphabet: copy_labels(&g.terminals),
            start_state: start,
            transition_function: out,
            accept_states,
        };
        proof {
            assert(r@.accept =~= set![accept_label()]) by {
                assert(labels(r.accept_states@) =~= seq![accept_label()]);
                crate::codec::lemma_push_to_set(Seq::<Seq<char>>::empty(), accept_label());
                assert(Seq::<Seq<char>>::empty().push(accept_label()) =~= seq![accept_label()]);
                assert(Seq::<Seq<char>>::empty().to_set() =~= Set::empty());
            }
            assert forall|x: Seq<char>| before.contains(x) <==> gv.variables.map(|v: Seq<char>| unwrap(v)).contains(x) by {
                if before.contains(x) {
                    let y = choose|y: int| 0 <= y < vars.len() && x == unwrap(vars@[y]@);
                    lemma_set_of_index(vars@, y);
                }
                if gv.variables.map(|v: Seq<char>| unwrap(v)).contains(x) {
                    let v = choose|v: Seq<char>| gv.variables.contains(v) && unwrap(v) == x;
                    let y = choose|y: int| 0 <= y < labels(vars@).len() && labels(vars@)[y] == v;
                    assert(x == unwrap(vars@[y]@));
                }
            }
            assert(r@.states =~= gv.variables.map(|v: Seq<char>| unwrap(v)).insert(accept_label()));
            assert forall|k: (Seq<char>, Seq<char>)| m.contains_key(k) implies done.contains(k) by {
                let v = choose|v: Seq<char>| gv.variables.contains(v) && k.0 == unwrap(v) && gv.terminals.contains(k.1);
                let x = choose|x: int| 0 <= x < labels(vars@).len() && labels(vars@)[x] == v;
                let b = choose|b: int| 0 <= b < labels(syms@).len() && labels(syms@)[b] == k.1;
                assert(done.contains((unwrap(vars@[x]@), syms@[b]@)));
            }
            assert(ntable(out@) =~= m);
            assert forall|v: Seq<char>, a: Seq<char>|
                gv.variables.contains(v) && gv.terminals.contains(a) implies #[trigger] r@.delta.contains_key((unwrap(v), a))
                    && r@.delta[(unwrap(v), a)] == grammar_targets(gv, v, a) by {
                assert(m.contains_key((unwrap(v), a)));
                assert(is_wrapped(v));
                assert(wrap(unwrap(v)) =~= v);
            }
        }
        r
    }
}

/// What `NondeterministicFiniteAutomata::from_grammar` gives for `g`.
pub open spec fn is_grammar_automaton(n: NfaView, g: RgView) -> bool {
    &&& n.states == g.variables.map(|v: Seq<char>| unwrap(v)).insert(accept_label())
    &&& n.alphabet == g.terminals
    &&& n.start == unwrap(g.start)
    &&& n.accept == set![accept_label()]
    &&& forall|v: Seq<char>, a: Seq<char>|
        g.variables.contains(v) && g.terminals.contains(a) ==> #[trigger] n.delta.contains_key((unwrap(v), a))
            && n.delta[(unwrap(v), a)] == grammar_targets(g, v, a)
    &&& forall|k: (Seq<char>, Seq<char>)| #[trigger] n.delta.contains_key(k) ==> g.terminals.contains(k.1)
        && exists|v: Seq<char>| g.variables.contains(v) && k.0 == unwrap(v)
}

/// What `RegularGrammar::from_dfa` gives for `d`.
pub open spec fn is_automaton_grammar(g: RgView, d: DfaView) -> bool {
    &&& g.variables == d.states.map(|q: Seq<char>| wrap(q))
    &&& g.terminals == d.alphabet
    &&& g.rules == dfa_rules(d)
    &&& g.start == wrap(d.start)
}

/// An automaton whose grammar can be read back: well formed, every symbol a
/// single character other than `&`, and no state named `accept`.
pub open spec fn grammar_ready(d: DfaView) -> bool {
    &&& dfa_wf(d)
    &&& forall|a: Seq<char>| d.alphabet.contains(a) ==> a.len() == 1
    &&& !d.alphabet.contains(eps())
    &&& !d.states.contains(accept_label())
}

/// The moves of the automaton of the grammar of `d` from a state of `d`.
proof fn lemma_round_trip_moves(d: DfaView, g: RgView, n: NfaView, q: Seq<char>, a: Seq<char>)
    requires
        grammar_ready(d),
        is_automaton_grammar(g, d),
        is_grammar_automaton(n, g),
        d.states.contains(q),
    ensures
        moves(n, q, a) == (if d.delta.contains_key((q, a)) {
            if d.accept.contains(d.delta[(q, a)]) {
                set![d.delta[(q, a)], accept_label()]
            } else {
                set![d.delta[(q, a)]]
            }
        } else {
            Set::empty()
        }),
{
    let v = wrap(q);
    lemma_unwrap_wrap(q);
    assert(g.variables.contains(v));
    if d.alphabet.contains(a) {
        assert(n.delta.contains_key((q, a)));
        let ts = grammar_targets(g, v, a);
        assert(n.delta[(q, a)] == ts);
        let ps = productions_of(g, v);
        assert forall|t: Seq<char>| ts.contains(t) implies d.delta.contains_key((q, a)) && (t == d.delta[(q, a)] || (t
            == accept_label() && d.accept.contains(d.delta[(q, a)]))) by {
            let p = choose|p: Seq<char>| #[trigger] ps.contains(p) && p.len() >= 1 && seq![p[0]] == a && ((p.len() == 1
                && t == accept_label()) || (p.len() >= 3 && t == p.subrange(2, p.len() - 1)));
            assert(g.rules.contains_key(v));
            assert(unwrap(v) == q);
            let b = choose|b: Seq<char>| #[trigger] d.delta.contains_key((q, b)) && (p == b + wrap(d.delta[(q, b)]) || (p == b
                && d.accept.contains(d.delta[(q, b)])));
            assert(d.alphabet.contains(b));
            assert(b.len() == 1);
            if p == b + wrap(d.delta[(q, b)]) {
                assert(p[0] == b[0]);
                assert(b =~= seq![b[0]]);
                assert(p.subrange(2, p.len() - 1) =~= d.delta[(q, b)]);
            } else {
                assert(b =~= seq![b[0]]);
            }
        }
        if d.delta.contains_key((q, a)) {
            let t = d.delta[(q, a)];
            assert(a.len() == 1);
            assert(a =~= seq![a[0]]);
            assert(g.rules.contains_key(v)) by {
                assert(d.delta.contains_key((q, a)) && v == wrap((q, a).0));
            }
            assert(unwrap(v) == q);
            let p1 = a + wrap(t);
            assert(dfa_productions(d, q).contains(p1));
            assert(ps.contains(p1));
            assert(p1[0] == a[0]);
            assert(p1.subrange(2, p1.len() - 1) =~= t);
            assert(ts.contains(t));
            if d.accept.contains(t) {
                assert(dfa_productions(d, q).contains(a));
                assert(ps.contains(a));
                assert(ts.contains(accept_label()));
                assert(ts =~= set![t, accept_label()]);
            } else {
                assert(ts =~= set![t]);
            }
        } else {
            assert(ts =~= Set::empty());
        }
    } else {
        if n.delta.contains_key((q, a)) {
            assert(g.terminals.contains(a));
        }
    }
}

/// Reading a non-empty word in the automaton of the grammar of `d`, from a
/// state `q` of `d` (with or without the extra accept state), ends in the
/// state `d` ends in, together with the extra accept state when that state
/// accepts; or nowhere when `d` has no move.
proof fn lemma_round_trip_simulate(d: DfaView, g: RgView, n: NfaView, q: Seq<char>, s: Set<Seq<char>>, w: Seq<Seq<char>>)
    requires
        grammar_ready(d),
        is_automaton_grammar(g, d),
        is_grammar_automaton(n, g),
        d.states.contains(q),
        s == set![q] || s == set![q, accept_label()],
        w.len() > 0,
        forall|i: int| 0 <= i < w.len() ==> #[trigger] w[i] != eps(),
    ensures
        simulate(n, s, w) == (match run(d.delta, q, w) {
            Some(x) => if d.accept.contains(x) {
                set![x, accept_label()]
            } else {
                set![x]
            },
            None => Set::empty(),
        }),
    decreases w.len(),
{
    let a = w[0];
    let rest = w.drop_first();
    assert(a != eps());
    let t = subset_step(n, s, a);
    lemma_round_trip_moves(d, g, n, q, a);
    // Nothing moves from the extra accept state, and no state has empty-word moves.
    assert(moves(n, accept_label(), a) =~= Set::empty()) by {
        if n.delta.contains_key((accept_label(), a)) {
            let v = choose|v: Seq<char>| g.variables.contains(v) && accept_label() == unwrap(v);
            let q2 = choose|q2: Seq<char>| d.states.contains(q2) && wrap(q2) == v;
            lemma_unwrap_wrap(q2);
        }
    }
    assert forall|z: Seq<char>| #[trigger] moves(n, z, eps()) == Set::<Seq<char>>::empty() by {
        if n.delta.contains_key((z, eps())) {
            assert(g.terminals.contains(eps()));
        }
    }
    assert forall|z: Seq<char>| #[trigger] eclose(n, set![z]) == set![z] by {
        assert forall|y: Seq<char>| eclose(n, set![z]).contains(y) <==> set![z].contains(y) by {
            if eclose(n, set![z]).contains(y) {
                let p = choose|p: Seq<Seq<char>>| #[trigger] eps_path(n, p) && set![z].contains(p[0]) && p.last() == y;
                if p.len() > 1 {
                    assert(moves(n, p[0], eps()).contains(p[1]));
                }
            }
            if y == z {
                assert(eps_path(n, seq![z]));
            }
        }
        assert(eclose(n, set![z]) =~= set![z]);
    }
    assert(t =~= moves(n, q, a)) by {
        assert forall|y: Seq<char>| t.contains(y) implies moves(n, q, a).contains(y) by {
            let (x, z) = choose|x: Seq<char>, z: Seq<char>|
                s.contains(x) && #[trigger] moves(n, x, a).contains(z) && #[trigger] eclose(n, set![z]).contains(y);
            assert(eclose(n, set![z]) == set![z]);
        }
        assert forall|y: Seq<char>| moves(n, q, a).contains(y) implies t.contains(y) by {
            assert(eclose(n, set![y]) == set![y]);
            assert(s.contains(q));
            assert(moves(n, q, a).contains(y) && eclose(n, set![y]).contains(y));
        }
    }
    if rest.len() == 0 {
        assert(simulate(n, t, rest) == t);
        if d.delta.contains_key((q, a)) {
            assert(run(d.delta, d.delta[(q, a)], rest) == Some(d.delta[(q, a)]));
        }
    } else {
        assert forall|i: int| 0 <= i < rest.len() implies #[trigger] rest[i] != eps() by {
            assert(rest[i] == w[i + 1]);
        }
        if d.delta.contains_key((q, a)) {
            let q2 = d.delta[(q, a)];
            lemma_round_trip_simulate(d, g, n, q2, t, rest);
        } else {
            lemma_simulate_nothing(n, rest);
        }
    }
}

proof fn lemma_simulate_nothing(n: NfaView, w: Seq<Seq<char>>)
    ensures
        simulate(n, Set::empty(), w) == Set::<Seq<char>>::empty(),
    decreases w.len(),
{
    if w.len() > 0 {
        assert(subset_step(n, Set::empty(), w[0]) =~= Set::empty());
        lemma_simulate_nothing(n, w.drop_first());
    }
}

/// The automaton of the grammar of `d` is well formed.
pub proof fn lemma_grammar_automaton_wf(d: DfaView, g: RgView, n: NfaView)
    requires
        grammar_ready(d),
        is_automaton_grammar(g, d),
        is_grammar_automaton(n, g),
    ensures
        nfa_wf(n),
        n.states == d.states.insert(accept_label()),
{
    assert forall|x: Seq<char>| n.states.contains(x) <==> d.states.insert(accept_label()).contains(x) by {
        if d.states.contains(x) {
            lemma_unwrap_wrap(x);
            assert(g.variables.contains(wrap(x)));
        }
        if n.states.contains(x) && x != accept_label() {
            let v = choose|v: Seq<char>| g.variables.contains(v) && unwrap(v) == x;
            let q = choose|q: Seq<char>| d.states.contains(q) && wrap(q) == v;
            lemma_unwrap_wrap(q);
        }
    }
    assert(n.states =~= d.states.insert(accept_label()));
    lemma_unwrap_wrap(d.start);
    assert forall|x: Seq<char>| n.accept.contains(x) implies n.states.contains(x) by {}
    assert forall|k: (Seq<char>, Seq<char>)| #[trigger] n.delta.contains_key(k) implies n.states.contains(k.0)
        && (n.alphabet.contains(k.1) || k.1 == eps()) && n.delta[k].subset_of(n.states) by {
        let v = choose|v: Seq<char>| g.variables.contains(v) && k.0 == unwrap(v);
        let q = choose|q: Seq<char>| d.states.contains(q) && wrap(q) == v;
        lemma_unwrap_wrap(q);
        lemma_round_trip_moves(d, g, n, q, k.1);
        assert(moves(n, q, k.1) == n.delta[k]);
    }
}

/// From an automaton to its grammar, to the grammar's automaton, and back
/// to a deterministic automaton by the subset construction: the result
/// accepts the same non-empty words as the original.
pub proof fn lemma_round_trip(d: DfaView, g: RgView, n: NfaView, e: DfaView, w: Seq<Seq<char>>)
    requires
        grammar_ready(d),
        is_automaton_grammar(g, d),
        is_grammar_automaton(n, g),
        forall|v: Seq<Seq<char>>| accepts(e, v) == nfa_accepts(n, v),
        w.len() > 0,
    ensures
        accepts(e, w) == accepts(d, w),
{
    lemma_grammar_automaton_wf(d, g, n);
    lemma_unwrap_wrap(d.start);
    let s0 = eclose(n, set![n.start]);
    assert(s0 =~= set![d.start]) by {
        assert forall|y: Seq<char>| s0.contains(y) <==> set![d.start].contains(y) by {
            if s0.contains(y) {
                let p = choose|p: Seq<Seq<char>>| #[trigger] eps_path(n, p) && set![n.start].contains(p[0]) && p.last() == y;
                if p.len() > 1 {
                    assert(moves(n, p[0], eps()).contains(p[1]));
                    if n.delta.contains_key((p[0], eps())) {
                        assert(g.terminals.contains(eps()));
                    }
                }
            }
            if y == d.start {
                assert(eps_path(n, seq![d.start]));
            }
        }
    }
    if forall|i: int| 0 <= i < w.len() ==> n.alphabet.contains(#[trigger] w[i]) {
        assert forall|i: int| 0 <= i < w.len() implies #[trigger] w[i] != eps() by {
            assert(n.alphabet.contains(w[i]));
        }
        lemma_round_trip_simulate(d, g, n, d.start, s0, w);
        crate::dfa::lemma_run_stays(d, d.start, w);
        let sim = simulate(n, s0, w);
        assert(accepts(e, w) == nfa_accepts(n, w));
        match run(d.delta, d.start, w) {
            Some(x) => {
                assert(x != accept_label());
                if d.accept.contains(x) {
                    assert(sim.contains(accept_label()) && n.accept.contains(accept_label()));
                } else if nfa_accepts(n, w) {
                    let y = choose|y: Seq<char>| sim.contains(y) && n.accept.contains(y);
                    assert(y == accept_label());
                }
            },
            None => {
                assert(sim =~= Set::<Seq<char>>::empty());
            },
        }
    } else {
        let i = choose|i: int| 0 <= i < w.len() && !n.alphabet.contains(#[trigger] w[i]);
        crate::dfa::lemma_run_reads_alphabet(d, d.start, w, i);
    }
}


} // verus!
