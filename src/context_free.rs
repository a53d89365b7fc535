//! Context-free grammars: a new start variable and the removal of
//! empty-word productions.
use vstd::prelude::*;
use crate::codec::{labels, str_eq};
use crate::collection::{
    add_label, contains_label, copy_labels, lemma_distinct_bounded, lemma_set_of_index,
    lemma_set_of_push, set_of,
};
use crate::names::{decimal, numbered};

verus! {

/// The right-hand sides of one variable, each a sequence of symbols.
pub struct CfgRule {
    pub variable: String,
    pub productions: Vec<Vec<String>>,
}

/// A context-free grammar; `&` alone on a right-hand side is the empty word.
pub struct ContextFreeGrammar {
    pub variables: Vec<String>,
    pub terminals: Vec<String>,
    pub rules: Vec<CfgRule>,
    pub start_variable: String,
}

/// The mathematical content of a context-free grammar.
pub struct CfgView {
    pub variables: Set<Seq<char>>,
    pub terminals: Set<Seq<char>>,
    pub rules: Map<Seq<char>, Set<Seq<Seq<char>>>>,
    pub start: Seq<char>,
}

/// The right-hand sides held by a vector, as sequences of symbols.
pub open spec fn sentences(v: Seq<Vec<String>>) -> Set<Seq<Seq<char>>> {
    v.map_values(|p: Vec<String>| labels(p@)).to_set()
}

/// The productions of each variable; a later rule for a variable replaces an earlier one.
pub open spec fn cfg_rule_map(rs: Seq<CfgRule>) -> Map<Seq<char>, Set<Seq<Seq<char>>>>
    decreases rs.len(),
{
    if rs.len() == 0 {
        Map::empty()
    } else {
        cfg_rule_map(rs.drop_last()).insert(rs.last().variable@, sentences(rs.last().productions@))
    }
}

impl View for ContextFreeGrammar {
    type V = CfgView;

    open spec fn view(&self) -> CfgView {
        CfgView {
            variables: set_of(self.variables@),
            terminals: set_of(self.terminals@),
            rules: cfg_rule_map(self.rules@),
            start: self.start_variable@,
        }
    }
}

/// The empty-word production `&`.
pub open spec fn empty_production() -> Seq<Seq<char>> {
    seq![seq!['&']]
}

/// The productions of `v`.
pub open spec fn cfg_productions(g: CfgView, v: Seq<char>) -> Set<Seq<Seq<char>>> {
    if g.rules.contains_key(v) {
        g.rules[v]
    } else {
        Set::empty()
    }
}

/// The variables that derive the empty word in at most `k + 1` rounds: first
/// those with the production `&`, then those with a non-empty production
/// made only of variables found before.
pub open spec fn nullable_within(g: CfgView, k: nat) -> Set<Seq<char>>
    decreases k,
{
    if k == 0 {
        Set::new(|v: Seq<char>| cfg_productions(g, v).contains(empty_production()))
    } else {
        let prev = nullable_within(g, (k - 1) as nat);
        Set::new(
            |v: Seq<char>|
                prev.contains(v) || exists|p: Seq<Seq<char>>|
                    #[trigger] cfg_productions(g, v).contains(p) && p.len() > 0 && forall|i: int|
                        0 <= i < p.len() ==> prev.contains(#[trigger] p[i]),
        )
    }
}

/// The variables that derive the empty word.
pub open spec fn nullable(g: CfgView) -> Set<Seq<char>> {
    Set::new(|v: Seq<char>| exists|k: nat| #[trigger] nullable_within(g, k).contains(v))
}

/// The sequences obtained from `p` by leaving out any of its occurrences of
/// members of `n`.
pub open spec fn variants(p: Seq<Seq<char>>, n: Set<Seq<char>>) -> Set<Seq<Seq<char>>>
    decreases p.len(),
{
    if p.len() == 0 {
        set![Seq::empty()]
    } else {
        let rest = variants(p.drop_first(), n);
        Set::new(
            |q: Seq<Seq<char>>|
                (q.len() > 0 && q[0] == p[0] && rest.contains(q.drop_first())) || (n.contains(p[0]) && rest.contains(q)),
        )
    }
}

/// The productions of `v` once empty-word productions are removed: every
/// non-empty variant of every production, where `&` itself is kept only for
/// the start variable.
pub open spec fn without_empty(g: CfgView, v: Seq<char>) -> Set<Seq<Seq<char>>> {
    Set::new(
        |q: Seq<Seq<char>>|
            q.len() > 0 && exists|p: Seq<Seq<char>>|
                #[trigger] cfg_productions(g, v).contains(p) && (p != empty_production() || v == g.start)
                    && variants(p, nullable(g)).contains(q),
    )
}

proof fn lemma_sentences_push(v: Seq<Vec<String>>, p: Vec<String>)
    ensures
        sentences(v.push(p)) == sentences(v).insert(labels(p@)),
{
    assert(v.push(p).map_values(|p: Vec<String>| labels(p@)) =~= v.map_values(|p: Vec<String>| labels(p@)).push(
        labels(p@),
    ));
    crate::codec::lemma_push_to_set(v.map_values(|p: Vec<String>| labels(p@)), labels(p@));
}

proof fn lemma_cfg_rule_map_suffix(rs: Seq<CfgRule>, i: int, v: Seq<char>)
    requires
        0 <= i <= rs.len(),
        forall|j: int| i <= j < rs.len() ==> (#[trigger] rs[j]).variable@ != v,
    ensures
        cfg_rule_map(rs).contains_key(v) == cfg_rule_map(rs.take(i)).contains_key(v),
        cfg_rule_map(rs).contains_key(v) ==> cfg_rule_map(rs)[v] == cfg_rule_map(rs.take(i))[v],
    decreases rs.len() - i,
{
    if i == rs.len() {
        assert(rs.take(i) =~= rs);
    } else {
        let t = rs.drop_last();
        assert forall|j: int| i <= j < t.len() implies (#[trigger] t[j]).variable@ != v by {
            assert(t[j] == rs[j]);
        }
        lemma_cfg_rule_map_suffix(t, i, v);
        assert(t.take(i) =~= rs.take(i));
    }
}

/// A copy of a list of right-hand sides.
fn copy_productions(v: &Vec<Vec<String>>) -> (r: Vec<Vec<String>>)
    ensures
        sentences(r@) == sentences(v@),
{
    let mut r: Vec<Vec<String>> = Vec::new();
    let mut i: usize = 0;
    proof {
        assert(sentences(r@) =~= sentences(v@.take(0)));
    }
    while i < v.len()
        invariant
            i <= v.len(),
            sentences(r@) == sentences(v@.take(i as int)),
        decreases v.len() - i,
    {
        let p = copy_labels(&v[i]);
        proof {
            lemma_sentences_push(r@, p);
            assert(v@.take(i + 1) =~= v@.take(i as int).push(v@[i as int]));
            lemma_sentences_push(v@.take(i as int), v@[i as int]);
        }
        r.push(p);
        i = i + 1;
    }
    proof {
        assert(v@.take(i as int) =~= v@);
    }
    r
}

/// The productions of the variable `v`, or none.
fn productions_of(rules: &Vec<CfgRule>, v: &str) -> (r: Vec<Vec<String>>)
    ensures
        sentences(r@) == (if cfg_rule_map(rules@).contains_key(v@) {
            cfg_rule_map(rules@)[v@]
        } else {
            Set::empty()
        }),
{
    let mut i: usize = rules.len();
    while i > 0
        invariant
            i <= rules.len(),
            forall|j: int| i <= j < rules.len() ==> (#[trigger] rules@[j]).variable@ != v@,
        decreases i,
    {
        if str_eq(rules[i - 1].variable.as_str(), v) {
            proof {
                lemma_cfg_rule_map_suffix(rules@, i as int, v@);
                let p = rules@.take(i as int);
                assert(p.drop_last() =~= rules@.take(i - 1));
                assert(p.last() == rules@[i - 1]);
            }
            return copy_productions(&rules[i - 1].productions);
        }
        i = i - 1;
    }
    proof {
        lemma_cfg_rule_map_suffix(rules@, 0, v@);
        assert(rules@.take(0) =~= Seq::<CfgRule>::empty());
    }
    let r: Vec<Vec<String>> = Vec::new();
    proof {
        assert(sentences(r@) =~= Set::empty());
    }
    r
}

/// Whether the right-hand side is `&` alone.
fn is_empty_production(p: &Vec<String>) -> (r: bool)
    ensures
        r == (labels(p@) == empty_production()),
{
    if p.len() != 1 {
        proof {
            assert(labels(p@).len() != 1);
        }
        return false;
    }
    let amp = crate::nfa::epsilon_label();
    let r = str_eq(p[0].as_str(), amp.as_str());
    proof {
        if r {
            assert(labels(p@) =~= empty_production());
        } else {
            assert(labels(p@)[0] != empty_production()[0]);
        }
    }
    r
}

/// The variants of `p[from..]` (see `variants`).
fn variants_from(p: &Vec<String>, from: usize, nul: &Vec<String>) -> (r: Vec<Vec<String>>)
    requires
        from <= p.len(),
    ensures
        sentences(r@) == variants(labels(p@).skip(from as int), set_of(nul@)),
    decreases p.len() - from,
{
    let ghost n = set_of(nul@);
    if from == p.len() {
        let mut r: Vec<Vec<String>> = Vec::new();
        r.push(Vec::new());
        proof {
            assert(labels(p@).skip(from as int) =~= Seq::<Seq<char>>::empty());
            lemma_sentences_push(Seq::empty(), r@[0]);
            assert(r@ =~= Seq::<Vec<String>>::empty().push(r@[0]));
            assert(sentences(Seq::<Vec<String>>::empty()) =~= Set::empty());
            assert(labels(r@[0]@) =~= Seq::<Seq<char>>::empty());
            assert(sentences(r@) =~= set![Seq::<Seq<char>>::empty()]);
        }
        return r;
    }
    let rest = variants_from(p, from + 1, nul);
    let ghost ps = labels(p@).skip(from as int);
    let ghost head = p@[from as int]@;
    let ghost rs = variants(labels(p@).skip(from + 1), n);
    proof {
        assert(ps.drop_first() =~= labels(p@).skip(from + 1));
        assert(ps[0] == head);
    }
    let drop = contains_label(nul, p[from].as_str());
    let mut r: Vec<Vec<String>> = Vec::new();
    let mut i: usize = 0;
    proof {
        assert(sentences(r@) =~= Set::new(
            |q: Seq<Seq<char>>| exists|j: int| 0 <= j < 0 && (q == seq![head] + labels(rest@[j]@) || (drop && q == labels(rest@[j]@))),
        ));
    }
    while i < rest.len()
        invariant
            from < p.len(),
            head == p@[from as int]@,
            drop == n.contains(head),
            n == set_of(nul@),
            i <= rest.len(),
            sentences(r@) == Set::new(
                |q: Seq<Seq<char>>| exists|j: int| 0 <= j < i && (q == seq![head] + labels(rest@[j]@) || (drop && q == labels(rest@[j]@))),
            ),
        decreases rest.len() - i,
    {
        let ghost prev = sentences(r@);
        let mut with_head: Vec<String> = Vec::new();
        with_head.push(p[from].clone());
        let mut k: usize = 0;
        while k < rest[i].len()
            invariant
                i < rest.len(),
                k <= rest[i as int].len(),
                labels(with_head@) == seq![head] + labels(rest@[i as int]@).take(k as int),
                head == p@[from as int]@,
            decreases rest[i as int].len() - k,
        {
            let ghost before = with_head@;
            with_head.push(rest[i][k].clone());
            proof {
                assert(labels(rest@[i as int]@).take(k + 1) =~= labels(rest@[i as int]@).take(k as int).push(rest@[i as int]@[k as int]@));
                assert(labels(with_head@) =~= labels(before).push(rest@[i as int]@[k as int]@));
            }
            k = k + 1;
        }
        proof {
            assert(labels(rest@[i as int]@).take(k as int) =~= labels(rest@[i as int]@));
            lemma_sentences_push(r@, with_head);
        }
        r.push(with_head);
        if drop {
            let without = copy_labels(&rest[i]);
            proof {
                lemma_sentences_push(r@, without);
            }
            r.push(without);
        }
        proof {
            assert(sentences(r@) =~= Set::new(
                |q: Seq<Seq<char>>| exists|j: int| 0 <= j < i + 1 && (q == seq![head] + labels(rest@[j]@) || (drop && q == labels(rest@[j]@))),
            )) by {
                assert forall|q: Seq<Seq<char>>| sentences(r@).contains(q) <==> exists|j: int| 0 <= j < i + 1 && (q == seq![head] + labels(rest@[j]@) || (drop && q == labels(rest@[j]@))) by {
                    if exists|j: int| 0 <= j < i + 1 && (q == seq![head] + labels(rest@[j]@) || (drop && q == labels(rest@[j]@))) {
                        let j = choose|j: int| 0 <= j < i + 1 && (q == seq![head] + labels(rest@[j]@) || (drop && q == labels(rest@[j]@)));
                        if j < i {
                            assert(prev.contains(q));
                        }
                    }
                }
            }
        }
        i = i + 1;
    }
    proof {
        let target = variants(ps, n);
        assert(target == Set::new(
            |q: Seq<Seq<char>>| (q.len() > 0 && q[0] == ps[0] && rs.contains(q.drop_first())) || (n.contains(ps[0]) && rs.contains(q)),
        ));
        assert forall|q: Seq<Seq<char>>| sentences(r@).contains(q) <==> target.contains(q) by {
            if sentences(r@).contains(q) {
                let j = choose|j: int| 0 <= j < rest.len() && (q == seq![head] + labels(rest@[j]@) || (drop && q == labels(rest@[j]@)));
                assert(sentences(rest@).contains(labels(rest@[j]@))) by {
                    assert(rest@.map_values(|p: Vec<String>| labels(p@))[j] == labels(rest@[j]@));
                }
                if q == seq![head] + labels(rest@[j]@) {
                    assert(q.drop_first() =~= labels(rest@[j]@));
                }
            }
            if target.contains(q) {
                let mv = rest@.map_values(|p: Vec<String>| labels(p@));
                if q.len() > 0 && q[0] == ps[0] && rs.contains(q.drop_first()) {
                    let j = choose|j: int| 0 <= j < mv.len() && mv[j] == q.drop_first();
                    assert(q =~= seq![head] + labels(rest@[j]@));
                } else {
                    let j = choose|j: int| 0 <= j < mv.len() && mv[j] == q;
                    assert(q == labels(rest@[j]@));
                }
            }
        }
        assert(sentences(r@) =~= target);
    }
    r
}

proof fn lemma_nullable_grows(g: CfgView, j: nat, k: nat)
    requires
        j <= k,
    ensures
        nullable_within(g, j).subset_of(nullable_within(g, k)),
    decreases k - j,
{
    if j < k {
        lemma_nullable_grows(g, j, (k - 1) as nat);
    }
}

proof fn lemma_nullable_stable(g: CfgView, k: nat, j: nat)
    requires
        nullable_within(g, k + 1) == nullable_within(g, k),
        k <= j,
    ensures
        nullable_within(g, j) == nullable_within(g, k),
    decreases j - k,
{
    if j > k {
        lemma_nullable_stable(g, k, (j - 1) as nat);
        assert(nullable_within(g, j) =~= nullable_within(g, k));
    }
}

/// A copy of a list of rules.
fn copy_rules(rs: &Vec<CfgRule>) -> (r: Vec<CfgRule>)
    ensures
        cfg_rule_map(r@) == cfg_rule_map(rs@),
{
    let mut r: Vec<CfgRule> = Vec::new();
    let mut i: usize = 0;
    proof {
        assert(rs@.take(0) =~= Seq::<CfgRule>::empty());
    }
    while i < rs.len()
        invariant
            i <= rs.len(),
            cfg_rule_map(r@) == cfg_rule_map(rs@.take(i as int)),
        decreases rs.len() - i,
    {
        let rule = CfgRule { variable: rs[i].variable.clone(), productions: copy_productions(&rs[i].productions) };
        proof {
            assert(r@.push(rule).drop_last() =~= r@);
            assert(rs@.take(i + 1).drop_last() =~= rs@.take(i as int));
        }
        r.push(rule);
        i = i + 1;
    }
    proof {
        assert(rs@.take(i as int) =~= rs@);
    }
    r
}

/// Whether every symbol of `p` is one of `n`.
fn all_in(p: &Vec<String>, n: &Vec<String>) -> (r: bool)
    ensures
        r == forall|i: int| 0 <= i < p.len() ==> set_of(n@).contains(#[trigger] labels(p@)[i]),
{
    let mut i: usize = 0;
    while i < p.len()
        invariant
            i <= p.len(),
            forall|j: int| 0 <= j < i ==> set_of(n@).contains(#[trigger] labels(p@)[j]),
        decreases p.len() - i,
    {
        if !contains_label(n, p[i].as_str()) {
            proof {
                assert(labels(p@)[i as int] == p@[i as int]@);
            }
            return false;
        }
        i = i + 1;
    }
    true
}

impl ContextFreeGrammar {
    /// The grammar with no variables, terminals or rules and an empty start variable.
    pub fn new() -> (r: Self)
        ensures
            r@.variables.is_empty(),
            r@.terminals.is_empty(),
            r@.rules.is_empty(),
            r@.start.len() == 0,
    {
        let r = ContextFreeGrammar {
            variables: Vec::new(),
            terminals: Vec::new(),
            rules: Vec::new(),
            start_variable: String::new(),
        };
        proof {
            assert(set_of(r.variables@) =~= Set::empty());
            assert(set_of(r.terminals@) =~= Set::empty());
            assert(cfg_rule_map(r.rules@) =~= Map::empty());
        }
        r
    }

    /// A new start variable `<S_i>`, for the first `i` whose name is free,
    /// with the single production that derives the old start variable.
    pub fn create_new_start_variable(&self) -> (r: Self)
        ensures
            !self@.variables.contains(r@.start),
            exists|i: nat| r@.start == start_candidate(i) && forall|j: nat| j < i ==> self@.variables.contains(
                #[trigger] start_candidate(j),
            ),
            r@.variables == self@.variables.insert(r@.start),
            r@.terminals == self@.terminals,
            r@.rules == self@.rules.insert(r@.start, set![seq![self@.start]]),
    {
        let fresh = fresh_variable(&self.variables);
        let mut variables = copy_labels(&self.variables);
        proof {
            lemma_set_of_push(variables@, fresh);
        }
        variables.push(fresh.clone());
        let mut rules = copy_rules(&self.rules);
        let mut body: Vec<String> = Vec::new();
        body.push(self.start_variable.clone());
        let mut productions: Vec<Vec<String>> = Vec::new();
        productions.push(body);
        let rule = CfgRule { variable: fresh.clone(), productions };
        proof {
            assert(rules@.push(rule).drop_last() =~= rules@);
            lemma_sentences_push(Seq::empty(), rule.productions@[0]);
            assert(rule.productions@ =~= Seq::<Vec<String>>::empty().push(rule.productions@[0]));
            assert(sentences(Seq::<Vec<String>>::empty()) =~= Set::empty());
            assert(labels(rule.productions@[0]@) =~= seq![self@.start]);
            assert(sentences(rule.productions@) =~= set![seq![self@.start]]);
        }
        rules.push(rule);
        ContextFreeGrammar {
            variables,
            terminals: copy_labels(&self.terminals),
            rules,
            start_variable: fresh,
        }
    }

    /// Removes the empty-word productions: each production gives every
    /// non-empty variant that leaves out some occurrences of variables that
    /// derive the empty word; the production `&` is kept only for the start
    /// variable.
    pub fn remove_epsilon_productions(&self) -> (r: Self)
        ensures
            r@.variables == self@.variables,
            r@.terminals == self@.terminals,
            r@.start == self@.start,
            r@.rules == Map::new(|v: Seq<char>| self@.rules.contains_key(v), |v: Seq<char>| without_empty(self@, v)),
    {
        let ghost g = self@;
        let mut keys: Vec<String> = Vec::new();
        let mut i: usize = 0;
        proof {
            assert(self.rules@.take(0) =~= Seq::<CfgRule>::empty());
            assert(set_of(keys@) =~= cfg_rule_map(self.rules@.take(0)).dom());
        }
        while i < self.rules.len()
            invariant
                i <= self.rules.len(),
                labels(keys@).no_duplicates(),
                set_of(keys@) == cfg_rule_map(self.rules@.take(i as int)).dom(),
            decreases self.rules.len() - i,
        {
            proof {
                assert(self.rules@.take(i + 1).drop_last() =~= self.rules@.take(i as int));
            }
            add_label(&mut keys, self.rules[i].variable.clone());
            proof {
                assert(set_of(keys@) =~= cfg_rule_map(self.rules@.take(i + 1)).dom());
            }
            i = i + 1;
        }
        proof {
            assert(self.rules@.take(i as int) =~= self.rules@);
        }
        // The variables that derive the empty word, round by round.
        let mut current: Vec<String> = Vec::new();
        let mut x: usize = 0;
        proof {
            assert(set_of(current@) =~= Set::new(|v: Seq<char>| exists|y: int| 0 <= y < 0 && v == keys@[y]@ && nullable_within(g, 0).contains(v)));
        }
        while x < keys.len()
            invariant
                g == self@,
                set_of(keys@) == g.rules.dom(),
                labels(keys@).no_duplicates(),
                x <= keys.len(),
                labels(current@).no_duplicates(),
                set_of(current@) == Set::new(|v: Seq<char>| exists|y: int| 0 <= y < x && v == keys@[y]@ && nullable_within(g, 0).contains(v)),
            decreases keys.len() - x,
        {
            let ps = productions_of(&self.rules, keys[x].as_str());
            let mut found = false;
            let mut m: usize = 0;
            while m < ps.len()
                invariant
                    m <= ps.len(),
                    found == exists|z: int| 0 <= z < m && labels(ps@[z]@) == empty_production(),
                decreases ps.len() - m,
            {
                if is_empty_production(&ps[m]) {
                    found = true;
                }
                m = m + 1;
            }
            let ghost prev = set_of(current@);
            proof {
                let mv = ps@.map_values(|p: Vec<String>| labels(p@));
                if found {
                    let z = choose|z: int| 0 <= z < m && labels(ps@[z]@) == empty_production();
                    assert(mv[z] == empty_production());
                }
                if cfg_productions(g, keys@[x as int]@).contains(empty_production()) {
                    let z = choose|z: int| 0 <= z < mv.len() && mv[z] == empty_production();
                    assert(labels(ps@[z]@) == empty_production());
                }
                assert(found == nullable_within(g, 0).contains(keys@[x as int]@));
            }
            if found {
                let ghost before = current@;
                proof {
                    lemma_set_of_push(current@, keys@[x as int]);
                    assert(!set_of(current@).contains(keys@[x as int]@)) by {
                        if set_of(current@).contains(keys@[x as int]@) {
                            let y = choose|y: int| 0 <= y < x && keys@[x as int]@ == keys@[y]@ && nullable_within(g, 0).contains(keys@[x as int]@);
                            assert(labels(keys@)[y] == labels(keys@)[x as int]);
                        }
                    }
                }
                current.push(keys[x].clone());
                proof {
                    assert(labels(current@) =~= labels(before).push(keys@[x as int]@));
                }
            }
            proof {
                assert(set_of(current@) =~= Set::new(|v: Seq<char>| exists|y: int| 0 <= y < x + 1 && v == keys@[y]@ && nullable_within(g, 0).contains(v))) by {
                    assert forall|v: Seq<char>| set_of(current@).contains(v) <==> exists|y: int| 0 <= y < x + 1 && v == keys@[y]@ && nullable_within(g, 0).contains(v) by {
                        if exists|y: int| 0 <= y < x + 1 && v == keys@[y]@ && nullable_within(g, 0).contains(v) {
                            let y = choose|y: int| 0 <= y < x + 1 && v == keys@[y]@ && nullable_within(g, 0).contains(v);
                            if y < x {
                                assert(prev.contains(v));
                            }
                        }
                    }
                }
            }
            x = x + 1;
        }
        let ghost mut k: nat = 0;
        proof {
            assert(set_of(current@) =~= nullable_within(g, 0)) by {
                assert forall|v: Seq<char>| nullable_within(g, 0).contains(v) implies set_of(current@).contains(v) by {
                    assert(g.rules.contains_key(v));
                    let y = choose|y: int| 0 <= y < labels(keys@).len() && labels(keys@)[y] == v;
                }
            }
            assert forall|v: Seq<char>| set_of(current@).contains(v) implies set_of(keys@).contains(v) by {
                let y = choose|y: int| 0 <= y < keys.len() && v == keys@[y]@ && nullable_within(g, 0).contains(v);
                lemma_set_of_index(keys@, y);
            }
        }
        let mut changed = true;
        while changed
            invariant
                g == self@,
                set_of(keys@) == g.rules.dom(),
                labels(keys@).no_duplicates(),
                labels(current@).no_duplicates(),
                labels(current@).to_set().subset_of(labels(keys@).to_set()),
                set_of(current@) == nullable_within(g, k),
                !changed ==> nullable_within(g, k + 1) == nullable_within(g, k),
            decreases labels(keys@).len() - labels(current@).len(), if changed { 1int } else { 0int },
        {
            proof {
                lemma_distinct_bounded(labels(current@), labels(keys@));
            }
            let mut next = copy_labels(&current);
            let mut grew = false;
            let mut x: usize = 0;
            let ghost base = nullable_within(g, k);
            let ghost step = nullable_within(g, k + 1);
            proof {
                assert(step == Set::new(
                    |v: Seq<char>|
                        base.contains(v) || exists|p: Seq<Seq<char>>|
                            #[trigger] cfg_productions(g, v).contains(p) && p.len() > 0 && forall|i: int|
                                0 <= i < p.len() ==> base.contains(#[trigger] p[i]),
                ));
                assert(set_of(next@) =~= Set::new(|v: Seq<char>| base.contains(v) || exists|y: int| 0 <= y < 0 && v == keys@[y]@ && step.contains(v)));
            }
            while x < keys.len()
                invariant
                    g == self@,
                    set_of(keys@) == g.rules.dom(),
                    base == nullable_within(g, k),
                    step == nullable_within(g, k + 1),
                    set_of(current@) == base,
                    base.subset_of(step),
                    x <= keys.len(),
                    labels(next@).no_duplicates(),
                    labels(next@).to_set().subset_of(labels(keys@).to_set()),
                    labels(current@).to_set().subset_of(labels(keys@).to_set()),
                    set_of(next@) == Set::new(|v: Seq<char>| base.contains(v) || exists|y: int| 0 <= y < x && v == keys@[y]@ && step.contains(v)),
                    grew ==> labels(next@).len() > labels(current@).len(),
                    !grew ==> set_of(next@) == base && labels(next@).len() == labels(current@).len(),
                decreases keys.len() - x,
            {
                let ps = productions_of(&self.rules, keys[x].as_str());
                let mut found = false;
                let mut m: usize = 0;
                while m < ps.len()
                    invariant
                        m <= ps.len(),
                        found == exists|z: int| 0 <= z < m && ps@[z].len() > 0 && forall|i: int| 0 <= i < ps@[z].len() ==> set_of(current@).contains(#[trigger] labels(ps@[z]@)[i]),
                    decreases ps.len() - m,
                {
                    if ps[m].len() > 0 && all_in(&ps[m], &current) {
                        found = true;
                    }
                    m = m + 1;
                }
                let ghost v0 = keys@[x as int]@;
                proof {
                    let mv = ps@.map_values(|p: Vec<String>| labels(p@));
                    if found {
                        let z = choose|z: int| 0 <= z < m && ps@[z].len() > 0 && forall|i: int| 0 <= i < ps@[z].len() ==> set_of(current@).contains(#[trigger] labels(ps@[z]@)[i]);
                        assert(mv[z] == labels(ps@[z]@));
                        assert(cfg_productions(g, v0).contains(labels(ps@[z]@)));
                        assert(step.contains(v0));
                    }
                }
                if found && !contains_label(&next, keys[x].as_str()) {
                    let ghost before = next@;
                    proof {
                        lemma_set_of_push(next@, keys@[x as int]);
                        lemma_set_of_index(keys@, x as int);
                    }
                    next.push(keys[x].clone());
                    grew = true;
                    proof {
                        assert(labels(next@) =~= labels(before).push(keys@[x as int]@));
                        assert forall|v: Seq<char>| labels(next@).to_set().contains(v) implies labels(keys@).to_set().contains(v) by {
                            if v != v0 {
                                assert(set_of(before).contains(v));
                            }
                        }
                    }
                }
                proof {
                    let now = Set::new(|v: Seq<char>| base.contains(v) || exists|y: int| 0 <= y < x + 1 && v == keys@[y]@ && step.contains(v));
                    if step.contains(v0) && !base.contains(v0) {
                        let p = choose|p: Seq<Seq<char>>| #[trigger] cfg_productions(g, v0).contains(p) && p.len() > 0 && forall|i: int|
                            0 <= i < p.len() ==> base.contains(#[trigger] p[i]);
                        let mv = ps@.map_values(|p: Vec<String>| labels(p@));
                        let z = choose|z: int| 0 <= z < mv.len() && mv[z] == p;
                        assert(labels(ps@[z]@) == p);
                        assert(found);
                    }
                    assert forall|v: Seq<char>| set_of(next@).contains(v) <==> now.contains(v) by {
                        if now.contains(v) && !base.contains(v) {
                            let y = choose|y: int| 0 <= y < x + 1 && v == keys@[y]@ && step.contains(v);
                            if y < x {
                                assert(Set::new(|v: Seq<char>| base.contains(v) || exists|y: int| 0 <= y < x && v == keys@[y]@ && step.contains(v)).contains(v));
                            }
                        }
                    }
                    assert(set_of(next@) =~= now);
                }
                x = x + 1;
            }
            proof {
                assert forall|v: Seq<char>| step.contains(v) implies set_of(next@).contains(v) by {
                    if !base.contains(v) {
                        let p = choose|p: Seq<Seq<char>>| #[trigger] cfg_productions(g, v).contains(p) && p.len() > 0 && forall|i: int|
                            0 <= i < p.len() ==> base.contains(#[trigger] p[i]);
                        assert(g.rules.contains_key(v));
                        let y = choose|y: int| 0 <= y < labels(keys@).len() && labels(keys@)[y] == v;
                    }
                }
                assert(set_of(next@) =~= step);
                if !grew {
                    assert(step =~= base);
                }
            }
            current = next;
            changed = grew;
            proof {
                lemma_distinct_bounded(labels(current@), labels(keys@));
                k = k + 1;
                if !changed {
                    assert(nullable_within(g, k) == nullable_within(g, (k - 1) as nat));
                    assert(nullable_within(g, k + 1) =~= nullable_within(g, k));
                }
            }
        }
        proof {
            assert(set_of(current@) =~= nullable(g)) by {
                assert forall|v: Seq<char>| nullable(g).contains(v) implies set_of(current@).contains(v) by {
                    let j = choose|j: nat| #[trigger] nullable_within(g, j).contains(v);
                    if j <= k {
                        lemma_nullable_grows(g, j, k);
                    } else {
                        lemma_nullable_stable(g, k, j);
                    }
                }
                assert forall|v: Seq<char>| set_of(current@).contains(v) implies nullable(g).contains(v) by {
                    assert(nullable_within(g, k).contains(v));
                }
            }
        }
        // The new rules.
        let mut rules: Vec<CfgRule> = Vec::new();
        let ghost target = Map::new(|v: Seq<char>| g.rules.contains_key(v), |v: Seq<char>| without_empty(g, v));
        let mut x: usize = 0;
        proof {
            assert(cfg_rule_map(rules@) =~= Map::new(|v: Seq<char>| exists|y: int| 0 <= y < 0 && v == keys@[y]@, |v: Seq<char>| target[v]));
        }
        while x < keys.len()
            invariant
                g == self@,
                set_of(keys@) == g.rules.dom(),
                set_of(current@) == nullable(g),
                target == Map::new(|v: Seq<char>| g.rules.contains_key(v), |v: Seq<char>| without_empty(g, v)),
                x <= keys.len(),
                cfg_rule_map(rules@) == Map::new(|v: Seq<char>| exists|y: int| 0 <= y < x && v == keys@[y]@, |v: Seq<char>| target[v]),
            decreases keys.len() - x,
        {
            let v = &keys[x];
            let ps = productions_of(&self.rules, v.as_str());
            let is_start = str_eq(v.as_str(), self.start_variable.as_str());
            let mut out: Vec<Vec<String>> = Vec::new();
            let mut m: usize = 0;
            let ghost want = |mm: int| Set::new(
                |q: Seq<Seq<char>>|
                    q.len() > 0 && exists|z: int|
                        0 <= z < mm && (labels(ps@[z]@) != empty_production() || v@ == g.start)
                            && #[trigger] variants(labels(ps@[z]@), nullable(g)).contains(q),
            );
            proof {
                assert(sentences(out@) =~= want(0));
            }
            while m < ps.len()
                invariant
                    g == self@,
                    set_of(current@) == nullable(g),
                    is_start == (v@ == g.start),
                    m <= ps.len(),
                    want == (|mm: int| Set::new(
                        |q: Seq<Seq<char>>|
                            q.len() > 0 && exists|z: int|
                                0 <= z < mm && (labels(ps@[z]@) != empty_production() || v@ == g.start)
                                    && #[trigger] variants(labels(ps@[z]@), nullable(g)).contains(q),
                    )),
                    sentences(out@) == want(m as int),
                decreases ps.len() - m,
            {
                let ghost prev = sentences(out@);
                let keep = is_start || !is_empty_production(&ps[m]);
                if keep {
                    let vs = variants_from(&ps[m], 0, &current);
                    proof {
                        assert(labels(ps@[m as int]@).skip(0) =~= labels(ps@[m as int]@));
                    }
                    let mut t: usize = 0;
                    while t < vs.len()
                        invariant
                            m < ps.len(),
                            t <= vs.len(),
                            sentences(vs@) == variants(labels(ps@[m as int]@), nullable(g)),
                            sentences(out@) == prev.union(Set::new(|q: Seq<Seq<char>>| q.len() > 0 && exists|w: int| 0 <= w < t && q == labels(vs@[w]@))),
                        decreases vs.len() - t,
                    {
                        if vs[t].len() > 0 {
                            let q = copy_labels(&vs[t]);
                            proof {
                                lemma_sentences_push(out@, q);
                            }
                            out.push(q);
                        }
                        proof {
                            assert(sentences(out@) =~= prev.union(Set::new(|q: Seq<Seq<char>>| q.len() > 0 && exists|w: int| 0 <= w < t + 1 && q == labels(vs@[w]@))));
                        }
                        t = t + 1;
                    }
                    proof {
                        let mv = vs@.map_values(|p: Vec<String>| labels(p@));
                        assert forall|q: Seq<Seq<char>>| sentences(out@).contains(q) <==> want(m + 1).contains(q) by {
                            if want(m + 1).contains(q) {
                                let z = choose|z: int| 0 <= z < m + 1 && (labels(ps@[z]@) != empty_production() || v@ == g.start)
                                    && #[trigger] variants(labels(ps@[z]@), nullable(g)).contains(q);
                                if z < m {
                                    assert(want(m as int).contains(q));
                                } else {
                                    let w = choose|w: int| 0 <= w < mv.len() && mv[w] == q;
                                    assert(labels(vs@[w]@) == q);
                                }
                            }
                            if sentences(out@).contains(q) && !prev.contains(q) {
                                let w = choose|w: int| 0 <= w < t && q == labels(vs@[w]@);
                                assert(mv[w] == q);
                                assert(variants(labels(ps@[m as int]@), nullable(g)).contains(q));
                            }
                        }
                        assert(sentences(out@) =~= want(m + 1));
                    }
                } else {
                    proof {
                        assert(sentences(out@) =~= want(m + 1));
                    }
                }
                m = m + 1;
            }
            proof {
                let mv = ps@.map_values(|p: Vec<String>| labels(p@));
                assert forall|q: Seq<Seq<char>>| sentences(out@).contains(q) <==> without_empty(g, v@).contains(q) by {
                    if without_empty(g, v@).contains(q) {
                        let p = choose|p: Seq<Seq<char>>|
                            #[trigger] cfg_productions(g, v@).contains(p) && (p != empty_production() || v@ == g.start)
                                && variants(p, nullable(g)).contains(q);
                        let z = choose|z: int| 0 <= z < mv.len() && mv[z] == p;
                        assert(labels(ps@[z]@) == p);
                    }
                    if sentences(out@).contains(q) {
                        let z = choose|z: int|
                            0 <= z < ps.len() && (labels(ps@[z]@) != empty_production() || v@ == g.start)
                                && #[trigger] variants(labels(ps@[z]@), nullable(g)).contains(q);
                        assert(mv[z] == labels(ps@[z]@));
                        assert(cfg_productions(g, v@).contains(labels(ps@[z]@)));
                    }
                }
                assert(sentences(out@) =~= without_empty(g, v@));
                lemma_set_of_index(keys@, x as int);
            }
            let rule = CfgRule { variable: v.clone(), productions: out };
            proof {
                assert(rules@.push(rule).drop_last() =~= rules@);
            }
            rules.push(rule);
            proof {
                assert(cfg_rule_map(rules@) =~= Map::new(|v: Seq<char>| exists|y: int| 0 <= y < x + 1 && v == keys@[y]@, |v: Seq<char>| target[v]));
            }
            x = x + 1;
        }
        proof {
            assert(cfg_rule_map(rules@) =~= target) by {
                assert forall|v: Seq<char>| g.rules.contains_key(v) implies exists|y: int| 0 <= y < keys.len() && v == keys@[y]@ by {
                    let y = choose|y: int| 0 <= y < labels(keys@).len() && labels(keys@)[y] == v;
                }
                assert forall|v: Seq<char>| (exists|y: int| 0 <= y < keys.len() && v == keys@[y]@) implies g.rules.contains_key(v) by {
                    let y = choose|y: int| 0 <= y < keys.len() && v == keys@[y]@;
                    lemma_set_of_index(keys@, y);
                }
            }
        }
        ContextFreeGrammar {
            variables: copy_labels(&self.variables),
            terminals: copy_labels(&self.terminals),
            rules,
            start_variable: self.start_variable.clone(),
        }
    }
}

/// The candidate start variable `<S_i>`.
pub open spec fn start_candidate(i: nat) -> Seq<char> {
    seq!['<', 'S', '_'] + decimal(i) + seq!['>']
}

proof fn lemma_candidates_distinct(i: nat, j: nat)
    requires
        start_candidate(i) == start_candidate(j),
    ensures
        i == j,
{
    let a = start_candidate(i);
    let b = start_candidate(j);
    assert(decimal(i) =~= a.subrange(3, a.len() - 1));
    assert(decimal(j) =~= b.subrange(3, b.len() - 1));
    crate::names::lemma_decimal_injective(i, j);
}

/// `<S_i>` for the least `i` such that it is none of `taken`.
fn fresh_variable(taken: &Vec<String>) -> (r: String)
    ensures
        exists|i: nat| r@ == start_candidate(i) && !set_of(taken@).contains(start_candidate(i)) && forall|j: nat|
            j < i ==> set_of(taken@).contains(#[trigger] start_candidate(j)),
{
    proof {
        reveal_strlit("<S_");
        reveal_strlit(">");
    }
    let mut i: usize = 0;
    loop
        invariant
            forall|j: nat| j < i ==> set_of(taken@).contains(#[trigger] start_candidate(j)),
            i <= taken.len(),
        decreases taken.len() - i,
    {
        proof {
            reveal_strlit("<S_");
            reveal_strlit(">");
        }
        let candidate = numbered("<S_", i, ">");
        proof {
            assert(candidate@ =~= start_candidate(i as nat));
        }
        if !contains_label(taken, candidate.as_str()) {
            return candidate;
        }
        proof {
            // The candidates so far are distinct and all taken, so there are
            // no more of them than taken labels.
            let cs = Seq::new((i + 1) as nat, |j: int| start_candidate(j as nat));
            assert forall|x: int, y: int| 0 <= x < cs.len() && 0 <= y < cs.len() && x != y implies cs[x] != cs[y] by {
                if cs[x] == cs[y] {
                    lemma_candidates_distinct(x as nat, y as nat);
                }
            }
            assert(cs.no_duplicates());
            assert forall|c: Seq<char>| cs.to_set().contains(c) implies labels(taken@).to_set().contains(c) by {
                let x = choose|x: int| 0 <= x < cs.len() && cs[x] == c;
                if x < i {
                    assert(set_of(taken@).contains(start_candidate(x as nat)));
                }
            }
            lemma_distinct_bounded(cs, labels(taken@));
        }
        i = i + 1;
    }
}

} // verus!
