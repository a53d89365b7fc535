//! Composite state names: a set of labels written as `(a, b, c)`.
use vstd::prelude::*;

verus! {

/// The labels held by a vector of strings, in order.
pub open spec fn labels(v: Seq<String>) -> Seq<Seq<char>> {
    v.map_values(|s: String| s@)
}

/// Strict lexicographic order on character sequences (by code point, which
/// agrees with the byte order of their UTF-8 encodings).
pub open spec fn lex_lt(a: Seq<char>, b: Seq<char>) -> bool
    decreases a.len(),
{
    if a.len() == 0 {
        b.len() > 0
    } else if b.len() == 0 {
        false
    } else if a[0] < b[0] {
        true
    } else if a[0] == b[0] {
        lex_lt(a.drop_first(), b.drop_first())
    } else {
        false
    }
}

/// Strictly increasing, hence free of duplicates.
pub open spec fn strictly_sorted(q: Seq<Seq<char>>) -> bool {
    forall|i: int, j: int| 0 <= i < j < q.len() ==> lex_lt(#[trigger] q[i], #[trigger] q[j])
}

/// The members of `s`, in increasing order.
pub open spec fn sorted_members(s: Set<Seq<char>>) -> Seq<Seq<char>> {
    choose|q: Seq<Seq<char>>| strictly_sorted(q) && q.to_set() == s
}

/// Labels joined by `", "`.
pub open spec fn join(q: Seq<Seq<char>>) -> Seq<char>
    decreases q.len(),
{
    if q.len() == 0 {
        Seq::empty()
    } else if q.len() == 1 {
        q[0]
    } else {
        q[0] + seq![',', ' '] + join(q.drop_first())
    }
}

/// The composite name of a finite set of labels.
pub open spec fn encode(s: Set<Seq<char>>) -> Seq<char> {
    seq!['('] + join(sorted_members(s)) + seq![')']
}

pub open spec fn paren_delta(c: char) -> int {
    if c == '(' {
        1
    } else if c == ')' {
        -1
    } else {
        0
    }
}

/// Net nesting depth: opening minus closing parentheses.
pub open spec fn depth(s: Seq<char>) -> int
    decreases s.len(),
{
    if s.len() == 0 {
        0
    } else {
        paren_delta(s[0]) + depth(s.drop_first())
    }
}

/// Scanned from depth `d`, the depth never drops below zero and every comma
/// sits inside parentheses.
pub open spec fn nested_from(s: Seq<char>, d: int) -> bool
    decreases s.len(),
{
    if s.len() == 0 {
        true
    } else {
        let d2 = d + paren_delta(s[0]);
        d2 >= 0 && (s[0] == ',' ==> d > 0) && nested_from(s.drop_first(), d2)
    }
}

/// A balanced label with no comma outside parentheses; any number of them
/// can share a composite name and be read back.
pub open spec fn is_nested_label(s: Seq<char>) -> bool {
    nested_from(s, 0) && depth(s) == 0
}

/// A non-empty nested label. Sets of them have distinct composite names,
/// the empty set included.
pub open spec fn is_member_label(s: Seq<char>) -> bool {
    s.len() > 0 && is_nested_label(s)
}

/// Scanned from depth `d`, the depth never drops below zero and ends at zero.
pub open spec fn balanced_from(s: Seq<char>, d: int) -> bool
    decreases s.len(),
{
    if s.len() == 0 {
        d == 0
    } else {
        d + paren_delta(s[0]) >= 0 && balanced_from(s.drop_first(), d + paren_delta(s[0]))
    }
}

/// The pieces of `s` between commas at depth zero; `cur` is the piece read so far.
pub open spec fn pieces(s: Seq<char>, d: int, cur: Seq<char>) -> Seq<Seq<char>>
    decreases s.len(),
{
    if s.len() == 0 {
        seq![cur]
    } else if s[0] == ',' && d == 0 {
        seq![cur] + pieces(s.drop_first(), 0, Seq::empty())
    } else {
        pieces(s.drop_first(), d + paren_delta(s[0]), cur.push(s[0]))
    }
}

/// A piece after a separator loses the one space that follows the comma.
pub open spec fn strip_space(s: Seq<char>) -> Seq<char> {
    if s.len() > 0 && s[0] == ' ' {
        s.drop_first()
    } else {
        s
    }
}

/// The labels named by the pieces of a composite name.
pub open spec fn members_of(ps: Seq<Seq<char>>) -> Set<Seq<char>> {
    Set::new(
        |x: Seq<char>|
            (ps.len() > 0 && x == ps[0]) || exists|i: int|
                1 <= i < ps.len() && x == strip_space(#[trigger] ps[i]),
    )
}

pub open spec fn inner(s: Seq<char>) -> Seq<char> {
    s.subrange(1, s.len() - 1)
}

/// A name that opens with `(` is composite; it must close with `)` and be balanced inside.
pub open spec fn is_wellformed_composite(s: Seq<char>) -> bool {
    s.len() >= 2 && s[s.len() - 1] == ')' && balanced_from(inner(s), 0)
}

/// The set of labels a state name stands for; `None` when the name is malformed.
pub open spec fn decode(s: Seq<char>) -> Option<Set<Seq<char>>> {
    if s.len() == 0 || s[0] != '(' {
        Some(set![s])
    } else if is_wellformed_composite(s) {
        Some(members_of(pieces(inner(s), 0, Seq::empty())))
    } else {
        None
    }
}

/// Why a state name could not be read.
#[derive(Debug, Clone, Copy, PartialEq, Eq, Structural)]
pub enum CodecError {
    MalformedStateName,
}

// ---------------------------------------------------------------------------
// Order lemmas
pub proof fn lemma_lex_irreflexive(a: Seq<char>)
    ensures
        !lex_lt(a, a),
    decreases a.len(),
{
    if a.len() > 0 {
        lemma_lex_irreflexive(a.drop_first());
    }
}

pub proof fn lemma_lex_asymmetric(a: Seq<char>, b: Seq<char>)
    ensures
        lex_lt(a, b) ==> !lex_lt(b, a),
    decreases a.len(),
{
    if a.len() > 0 && b.len() > 0 && a[0] == b[0] {
        lemma_lex_asymmetric(a.drop_first(), b.drop_first());
    }
}

pub proof fn lemma_lex_total(a: Seq<char>, b: Seq<char>)
    ensures
        a != b ==> lex_lt(a, b) || lex_lt(b, a),
    decreases a.len(),
{
    if a.len() > 0 && b.len() > 0 {
        if a[0] == b[0] {
            lemma_lex_total(a.drop_first(), b.drop_first());
            if a.drop_first() == b.drop_first() {
                assert(a =~= seq![a[0]] + a.drop_first());
                assert(b =~= seq![b[0]] + b.drop_first());
            }
        }
    } else if a.len() == 0 && b.len() == 0 {
        assert(a =~= b);
    }
}

pub proof fn lemma_lex_transitive(a: Seq<char>, b: Seq<char>, c: Seq<char>)
    requires
        lex_lt(a, b),
        lex_lt(b, c),
    ensures
        lex_lt(a, c),
    decreases a.len(),
{
    if a.len() > 0 && b.len() > 0 && c.len() > 0 && a[0] == b[0] && b[0] == c[0] {
        lemma_lex_transitive(a.drop_first(), b.drop_first(), c.drop_first());
    }
}

/// Two increasing sequences with the same members are the same sequence.
pub proof fn lemma_sorted_unique(p: Seq<Seq<char>>, q: Seq<Seq<char>>)
    requires
        strictly_sorted(p),
        strictly_sorted(q),
        p.to_set() == q.to_set(),
    ensures
        p == q,
    decreases p.len(),
{
    if p.len() == 0 {
        if q.len() > 0 {
            assert(q.to_set().contains(q[0]));
            assert(!p.to_set().contains(q[0]));
        }
        assert(p =~= q);
    } else if q.len() == 0 {
        assert(p.to_set().contains(p[0]));
    } else {
        assert(p.to_set().contains(p[0]));
        assert(q.to_set().contains(q[0]));
        let i = choose|i: int| 0 <= i < q.len() && q[i] == p[0];
        let j = choose|j: int| 0 <= j < p.len() && p[j] == q[0];
        if i > 0 {
            assert(lex_lt(q[0], q[i]));
            if j > 0 {
                assert(lex_lt(p[0], p[j]));
                lemma_lex_asymmetric(p[0], q[0]);
            } else {
                lemma_lex_irreflexive(p[0]);
            }
        }
        assert(p[0] == q[0]);
        let p1 = p.drop_first();
        let q1 = q.drop_first();
        assert forall|x: Seq<char>| p1.to_set().contains(x) implies q1.to_set().contains(x) by {
            let k = choose|k: int| 0 <= k < p1.len() && p1[k] == x;
            assert(lex_lt(p[0], p[k + 1]));
            lemma_lex_irreflexive(x);
            assert(p.to_set().contains(x));
            assert(q.to_set().contains(x));
            let m = choose|m: int| 0 <= m < q.len() && q[m] == x;
            assert(m != 0);
            assert(q1[m - 1] == x);
        }
        assert forall|x: Seq<char>| q1.to_set().contains(x) implies p1.to_set().contains(x) by {
            let k = choose|k: int| 0 <= k < q1.len() && q1[k] == x;
            assert(lex_lt(q[0], q[k + 1]));
            lemma_lex_irreflexive(x);
            assert(q.to_set().contains(x));
            assert(p.to_set().contains(x));
            let m = choose|m: int| 0 <= m < p.len() && p[m] == x;
            assert(m != 0);
            assert(p1[m - 1] == x);
        }
        assert(p1.to_set() =~= q1.to_set());
        lemma_sorted_unique(p1, q1);
        assert(p =~= seq![p[0]] + p1);
        assert(q =~= seq![q[0]] + q1);
    }
}

/// Every sorted sequence with the members of `s` is `sorted_members(s)`.
pub proof fn lemma_sorted_members(q: Seq<Seq<char>>)
    requires
        strictly_sorted(q),
    ensures
        sorted_members(q.to_set()) == q,
{
    let s = q.to_set();
    assert(exists|p: Seq<Seq<char>>| strictly_sorted(p) && p.to_set() == s);
    let p = sorted_members(s);
    lemma_sorted_unique(p, q);
}

// ---------------------------------------------------------------------------
// Executable codec
/// Whether `a` comes strictly before `b` in lexicographic order.
pub fn str_lt(a: &str, b: &str) -> (r: bool)
    ensures
        r == lex_lt(a@, b@),
{
    let na = a.unicode_len();
    let nb = b.unicode_len();
    let mut i: usize = 0;
    proof {
        assert(a@.skip(0) =~= a@);
        assert(b@.skip(0) =~= b@);
    }
    while i < na && i < nb && a.get_char(i) == b.get_char(i)
        invariant
            na == a@.len(),
            nb == b@.len(),
            i <= na,
            i <= nb,
            lex_lt(a@, b@) == lex_lt(a@.skip(i as int), b@.skip(i as int)),
        decreases na - i,
    {
        proof {
            let sa = a@.skip(i as int);
            let sb = b@.skip(i as int);
            assert(sa.drop_first() =~= a@.skip(i + 1));
            assert(sb.drop_first() =~= b@.skip(i + 1));
        }
        i = i + 1;
    }
    if i == na {
        i < nb
    } else if i == nb {
        false
    } else {
        let ca = a.get_char(i);
        let cb = b.get_char(i);
        ca < cb
    }
}

/// Whether `a` and `b` hold the same characters.
pub fn str_eq(a: &str, b: &str) -> (r: bool)
    ensures
        r == (a@ == b@),
{
    let na = a.unicode_len();
    let nb = b.unicode_len();
    if na != nb {
        return false;
    }
    let mut i: usize = 0;
    while i < na
        invariant
            na == a@.len(),
            nb == b@.len(),
            na == nb,
            i <= na,
            a@.take(i as int) == b@.take(i as int),
        decreases na - i,
    {
        if a.get_char(i) != b.get_char(i) {
            return false;
        }
        proof {
            assert(a@.take(i + 1) =~= a@.take(i as int).push(a@[i as int]));
            assert(b@.take(i + 1) =~= b@.take(i as int).push(b@[i as int]));
        }
        i = i + 1;
    }
    proof {
        assert(a@.take(i as int) =~= a@);
        assert(b@.take(i as int) =~= b@);
    }
    true
}

/// Inserts `x` into an increasing vector, keeping it increasing and without
/// duplicates.
pub fn insert_sorted(v: &mut Vec<String>, x: String)
    requires
        strictly_sorted(labels(old(v)@)),
    ensures
        strictly_sorted(labels(final(v)@)),
        labels(final(v)@).to_set() == labels(old(v)@).to_set().insert(x@),
{
    let ghost q = labels(v@);
    let mut i: usize = 0;
    while i < v.len() && str_lt(v[i].as_str(), x.as_str())
        invariant
            q == labels(v@),
            strictly_sorted(q),
            i <= v.len(),
            forall|k: int| 0 <= k < i ==> lex_lt(#[trigger] q[k], x@),
        decreases v.len() - i,
    {
        i = i + 1;
    }
    if i < v.len() && v[i] == x {
        proof {
            assert(q[i as int] == x@);
            assert(labels(v@).to_set() =~= q.to_set().insert(x@));
        }
        return;
    }
    proof {
        if i < v.len() {
            lemma_lex_total(q[i as int], x@);
        }
    }
    v.insert(i, x);
    proof {
        let q2 = labels(v@);
        assert(q2 =~= q.insert(i as int, x@));
        assert forall|a: int, b: int| 0 <= a < b < q2.len() implies lex_lt(
            #[trigger] q2[a],
            #[trigger] q2[b],
        ) by {
            if b == i {
            } else if a == i {
                if b > i + 1 {
                    lemma_lex_transitive(x@, q[i as int], q[b - 1]);
                }
            } else if a > i {
            } else if b > i {
            }
        }
        assert forall|y: Seq<char>| q2.to_set().contains(y) <==> q.to_set().insert(x@).contains(
            y,
        ) by {
            if q.to_set().contains(y) && y != x@ {
                let k = choose|k: int| 0 <= k < q.len() && q[k] == y;
                if k < i {
                    assert(q2[k] == y);
                } else {
                    assert(q2[k + 1] == y);
                }
            }
            if y == x@ {
                assert(q2[i as int] == y);
            }
        }
        assert(q2.to_set() =~= q.to_set().insert(x@));
    }
}

/// The members of `set`, increasing and without duplicates.
pub fn sorted_labels(set: &Vec<String>) -> (r: Vec<String>)
    ensures
        strictly_sorted(labels(r@)),
        labels(r@).to_set() == labels(set@).to_set(),
{
    let mut r: Vec<String> = Vec::new();
    let mut i: usize = 0;
    while i < set.len()
        invariant
            i <= set.len(),
            strictly_sorted(labels(r@)),
            labels(r@).to_set() == labels(set@.take(i as int)).to_set(),
        decreases set.len() - i,
    {
        insert_sorted(&mut r, set[i].clone());
        proof {
            assert(labels(set@.take(i + 1)) =~= labels(set@.take(i as int)).push(set@[i as int]@));
            lemma_push_to_set(labels(set@.take(i as int)), set@[i as int]@);
        }
        i = i + 1;
    }
    proof {
        assert(set@.take(i as int) =~= set@);
    }
    r
}

pub proof fn lemma_push_to_set<A>(q: Seq<A>, x: A)
    ensures
        q.push(x).to_set() == q.to_set().insert(x),
{
    assert forall|y: A| q.push(x).to_set().contains(y) <==> q.to_set().insert(x).contains(y) by {
        if q.to_set().contains(y) {
            let k = choose|k: int| 0 <= k < q.len() && q[k] == y;
            assert(q.push(x)[k] == y);
        }
        if y == x {
            assert(q.push(x)[q.len() as int] == y);
        }
        if q.push(x).contains(y) {
            let k = choose|k: int| 0 <= k < q.push(x).len() && q.push(x)[k] == y;
            if k < q.len() {
                assert(q[k] == y);
            }
        }
    }
    assert(q.push(x).to_set() =~= q.to_set().insert(x));
}

proof fn lemma_join_push(q: Seq<Seq<char>>, x: Seq<char>)
    requires
        q.len() > 0,
    ensures
        join(q.push(x)) == join(q) + seq![',', ' '] + x,
    decreases q.len(),
{
    if q.len() == 1 {
        assert(q.push(x).drop_first() =~= seq![x]);
        assert(join(seq![x]) == x);
    } else {
        assert(q.push(x).drop_first() =~= q.drop_first().push(x));
        lemma_join_push(q.drop_first(), x);
        assert(join(q.push(x)) =~= join(q) + seq![',', ' '] + x);
    }
}

/// The composite name of a set of labels: `(` + the labels in increasing
/// order joined by `", "` + `)`. Equal sets give equal names.
pub fn set_to_state(set: &Vec<String>) -> (r: String)
    ensures
        r@ == encode(labels(set@).to_set()),
{
    let sorted = sorted_labels(set);
    proof {
        reveal_strlit("(");
        reveal_strlit(", ");
        reveal_strlit(")");
    }
    let mut r = String::from_str("(");
    proof {
        assert(labels(sorted@).take(0) =~= Seq::<Seq<char>>::empty());
        assert(r@ =~= seq!['('] + join(labels(sorted@).take(0)));
    }
    let mut i: usize = 0;
    while i < sorted.len()
        invariant
            i <= sorted.len(),
            r@ == seq!['('] + join(labels(sorted@).take(i as int)),
        decreases sorted.len() - i,
    {
        let ghost q = labels(sorted@);
        proof {
            reveal_strlit(", ");
        }
        if i > 0 {
            r.append(", ");
        }
        r.append(sorted[i].as_str());
        proof {
            assert(q.take(i + 1) =~= q.take(i as int).push(q[i as int]));
            if i > 0 {
                lemma_join_push(q.take(i as int), q[i as int]);
            } else {
                assert(join(q.take(1)) == q[0]);
            }
            assert(r@ =~= seq!['('] + join(q.take(i + 1)));
        }
        i = i + 1;
    }
    proof {
        reveal_strlit(")");
    }
    r.append(")");
    proof {
        let q = labels(sorted@);
        assert(q.take(i as int) =~= q);
        lemma_sorted_members(q);
    }
    r
}


/// The labels that the pieces of a composite name stand for, in order.
pub open spec fn stripped(ps: Seq<Seq<char>>) -> Seq<Seq<char>> {
    Seq::new(ps.len(), |i: int| if i == 0 { ps[0] } else { strip_space(ps[i]) })
}

proof fn lemma_stripped_members(ps: Seq<Seq<char>>)
    ensures
        stripped(ps).to_set() == members_of(ps),
{
    let q = stripped(ps);
    assert forall|x: Seq<char>| q.to_set().contains(x) <==> members_of(ps).contains(x) by {
        if q.contains(x) {
            let k = choose|k: int| 0 <= k < q.len() && q[k] == x;
            if k > 0 {
                assert(x == strip_space(ps[k]));
            }
        }
        if members_of(ps).contains(x) {
            if ps.len() > 0 && x == ps[0] {
                assert(q[0] == x);
            } else {
                let k = choose|k: int| 1 <= k < ps.len() && x == strip_space(#[trigger] ps[k]);
                assert(q[k] == x);
            }
        }
    }
    assert(q.to_set() =~= members_of(ps));
}

proof fn lemma_stripped_push(ps: Seq<Seq<char>>, x: Seq<char>)
    ensures
        stripped(ps.push(x)) == stripped(ps).push(if ps.len() == 0 { x } else { strip_space(x) }),
{
    assert(stripped(ps.push(x)) =~= stripped(ps).push(if ps.len() == 0 { x } else { strip_space(x) }));
}

/// Drops one leading space.
fn strip_leading_space(piece: String) -> (r: String)
    ensures
        r@ == strip_space(piece@),
{
    let pn = piece.as_str().unicode_len();
    if pn > 0 && piece.as_str().get_char(0) == ' ' {
        let r = substring(piece.as_str(), 1, pn);
        proof {
            assert(piece@.subrange(1, pn as int) =~= piece@.drop_first());
        }
        r
    } else {
        piece
    }
}

/// Copies the characters `from..to` of `s` into a new string.
fn substring(s: &str, from: usize, to: usize) -> (r: String)
    requires
        from <= to <= s@.len(),
    ensures
        r@ == s@.subrange(from as int, to as int),
{
    String::from_str(s.substring_char(from, to))
}

/// The set of labels that a state name stands for. A name that does not
/// open with `(` stands for itself; `()` stands for the empty label; a
/// composite name is split at its top-level commas. A composite name with
/// unbalanced parentheses is refused.
pub fn state_to_set(state: &String) -> (r: Result<Vec<String>, CodecError>)
    ensures
        match r {
            Ok(v) => decode(state@) == Some(labels(v@).to_set()),
            Err(e) => decode(state@) is None && e == CodecError::MalformedStateName,
        },
{
    let s = state.as_str();
    let n = s.unicode_len();
    if n == 0 || s.get_char(0) != '(' {
        let mut v: Vec<String> = Vec::new();
        v.push(state.clone());
        proof {
            assert(labels(v@) =~= seq![state@]);
            lemma_push_to_set(Seq::<Seq<char>>::empty(), state@);
            assert(Seq::<Seq<char>>::empty().push(state@) =~= labels(v@));
            assert(Seq::<Seq<char>>::empty().to_set() =~= Set::empty());
            assert(labels(v@).to_set() =~= set![state@]);
        }
        return Ok(v);
    }
    if n < 2 || s.get_char(n - 1) != ')' {
        return Err(CodecError::MalformedStateName);
    }
    let body = s.substring_char(1, n - 1);
    let m = n - 2;
    let ghost t = body@;
    let ghost all = pieces(t, 0, Seq::empty());
    let mut out: Vec<String> = Vec::new();
    let ghost mut done: Seq<Seq<char>> = Seq::empty();
    let mut depth: usize = 0;
    let mut start: usize = 0;
    let mut i: usize = 0;
    proof {
        assert(t.subrange(0, 0) =~= Seq::<char>::empty());
        assert(t.subrange(0, t.len() as int) =~= t);
    }
    while i < m
        invariant
            t == body@,
            m == t.len(),
            t == inner(state@),
            state@.len() >= 2,
            state@[0] == '(',
            state@[state@.len() - 1] == ')',
            start <= i <= m,
            depth <= i,
            all == done + pieces(t.subrange(i as int, m as int), depth as int, t.subrange(start as int, i as int)),
            balanced_from(t, 0) == balanced_from(t.subrange(i as int, m as int), depth as int),
            labels(out@) == stripped(done),
        decreases m - i,
    {
        let c = body.get_char(i);
        proof {
            let rest = t.subrange(i as int, m as int);
            assert(rest[0] == c);
            assert(rest.drop_first() =~= t.subrange(i + 1, m as int));
            assert(t.subrange(start as int, i as int).push(c) =~= t.subrange(start as int, i + 1));
        }
        if c == ',' && depth == 0 {
            let piece = substring(body, start, i);
            let ghost old_done = done;
            proof {
                let rest = t.subrange(i as int, m as int);
                let cur = t.subrange(start as int, i as int);
                assert(pieces(rest, 0, cur) == seq![cur] + pieces(t.subrange(i + 1, m as int), 0, Seq::empty()));
                assert(t.subrange(i + 1, i + 1) =~= Seq::<char>::empty());
                done = done.push(t.subrange(start as int, i as int));
                assert(all =~= done + pieces(t.subrange(i + 1, m as int), 0, t.subrange(i + 1, i + 1)));
            }
            proof {
                lemma_stripped_push(old_done, t.subrange(start as int, i as int));
            }
            if out.len() == 0 {
                out.push(piece);
            } else {
                out.push(strip_leading_space(piece));
            }
            proof {
                assert(labels(out@) =~= stripped(done));
            }
            start = i + 1;
        } else if c == '(' {
            depth = depth + 1;
        } else if c == ')' {
            if depth == 0 {
                proof {
                    assert(!balanced_from(t.subrange(i as int, m as int), 0));
                }
                return Err(CodecError::MalformedStateName);
            }
            depth = depth - 1;
        }
        i = i + 1;
    }
    if depth != 0 {
        proof {
            assert(t.subrange(m as int, m as int).len() == 0);
        }
        return Err(CodecError::MalformedStateName);
    }
    let piece = substring(body, start, m);
    let ghost old_done = done;
    proof {
        assert(t.subrange(m as int, m as int).len() == 0);
        assert(all =~= done.push(t.subrange(start as int, m as int)));
        done = done.push(t.subrange(start as int, m as int));
    }
    proof {
        lemma_stripped_push(old_done, t.subrange(start as int, m as int));
    }
    if out.len() == 0 {
        out.push(piece);
    } else {
        out.push(strip_leading_space(piece));
    }
    proof {
        assert(labels(out@) =~= stripped(done));
        lemma_stripped_members(all);
    }
    Ok(out)
}


// ---------------------------------------------------------------------------
// Round trip
/// `x` put in its place in an increasing sequence.
pub open spec fn insert_in_order(q: Seq<Seq<char>>, x: Seq<char>) -> Seq<Seq<char>>
    decreases q.len(),
{
    if q.len() == 0 {
        seq![x]
    } else if lex_lt(q[0], x) {
        seq![q[0]] + insert_in_order(q.drop_first(), x)
    } else if q[0] == x {
        q
    } else {
        seq![x] + q
    }
}

proof fn lemma_insert_in_order(q: Seq<Seq<char>>, x: Seq<char>)
    requires
        strictly_sorted(q),
    ensures
        strictly_sorted(insert_in_order(q, x)),
        insert_in_order(q, x).to_set() == q.to_set().insert(x),
        insert_in_order(q, x).len() > 0,
        insert_in_order(q, x)[0] == x || (q.len() > 0 && insert_in_order(q, x)[0] == q[0]),
    decreases q.len(),
{
    let r = insert_in_order(q, x);
    if q.len() == 0 {
        lemma_push_to_set(Seq::<Seq<char>>::empty(), x);
        assert(Seq::<Seq<char>>::empty().push(x) =~= r);
        assert(Seq::<Seq<char>>::empty().to_set() =~= Set::empty());
    } else if lex_lt(q[0], x) {
        let t = q.drop_first();
        lemma_insert_in_order(t, x);
        let rt = insert_in_order(t, x);
        assert forall|i: int, j: int| 0 <= i < j < r.len() implies lex_lt(#[trigger] r[i], #[trigger] r[j]) by {
            if i == 0 {
                if rt[j - 1] == x {
                } else {
                    assert(rt.to_set().contains(rt[j - 1]));
                    assert(t.to_set().contains(rt[j - 1]));
                    let k = choose|k: int| 0 <= k < t.len() && t[k] == rt[j - 1];
                    assert(q[k + 1] == t[k]);
                }
            }
        }
        assert forall|y: Seq<char>| r.to_set().contains(y) <==> q.to_set().insert(x).contains(y) by {
            if r.contains(y) {
                let k = choose|k: int| 0 <= k < r.len() && r[k] == y;
                if k == 0 {
                    assert(q[0] == y);
                } else {
                    assert(rt.contains(y));
                    assert(rt.to_set().contains(y));
                    if y != x {
                        let m = choose|m: int| 0 <= m < t.len() && t[m] == y;
                        assert(q[m + 1] == y);
                    }
                }
            }
            if q.to_set().insert(x).contains(y) {
                if y == q[0] {
                    assert(r[0] == y);
                } else {
                    if y != x {
                        let k = choose|k: int| 0 <= k < q.len() && q[k] == y;
                        assert(t[k - 1] == y);
                        assert(t.to_set().contains(y));
                    }
                    assert(rt.to_set().contains(y));
                    let m = choose|m: int| 0 <= m < rt.len() && rt[m] == y;
                    assert(r[m + 1] == y);
                }
            }
        }
        assert(r.to_set() =~= q.to_set().insert(x));
    } else if q[0] == x {
        assert(q.to_set().contains(x));
        assert(r.to_set() =~= q.to_set().insert(x));
    } else {
        lemma_lex_total(q[0], x);
        assert forall|i: int, j: int| 0 <= i < j < r.len() implies lex_lt(#[trigger] r[i], #[trigger] r[j]) by {
            if i == 0 && j > 1 {
                lemma_lex_transitive(x, q[0], q[j - 1]);
            }
        }
        assert forall|y: Seq<char>| r.to_set().contains(y) <==> q.to_set().insert(x).contains(y) by {
            if r.contains(y) {
                let k = choose|k: int| 0 <= k < r.len() && r[k] == y;
                if k > 0 {
                    assert(q[k - 1] == y);
                }
            }
            if q.contains(y) {
                let k = choose|k: int| 0 <= k < q.len() && q[k] == y;
                assert(r[k + 1] == y);
            }
            if y == x {
                assert(r[0] == y);
            }
        }
        assert(r.to_set() =~= q.to_set().insert(x));
    }
}

/// Every finite set of labels has an increasing enumeration.
pub proof fn lemma_sorted_exists(s: Set<Seq<char>>)
    requires
        s.finite(),
    ensures
        strictly_sorted(sorted_members(s)),
        sorted_members(s).to_set() == s,
    decreases s.len(),
{
    if s.len() == 0 {
        let q = Seq::<Seq<char>>::empty();
        assert(q.to_set() =~= s);
    } else {
        let x = s.choose();
        let rest = s.remove(x);
        lemma_sorted_exists(rest);
        let q = sorted_members(rest);
        lemma_insert_in_order(q, x);
        assert(rest.insert(x) =~= s);
        let w = insert_in_order(q, x);
        assert(strictly_sorted(w) && w.to_set() == s);
    }
}

proof fn lemma_pieces_label(l: Seq<char>, rest: Seq<char>, d: int, cur: Seq<char>)
    requires
        nested_from(l, d),
    ensures
        pieces(l + rest, d, cur) == pieces(rest, d + depth(l), cur + l),
        balanced_from(l + rest, d) == balanced_from(rest, d + depth(l)),
    decreases l.len(),
{
    if l.len() == 0 {
        assert(l + rest =~= rest);
        assert(cur + l =~= cur);
    } else {
        let c = l[0];
        let t = l.drop_first();
        assert((l + rest).drop_first() =~= t + rest);
        assert((l + rest)[0] == c);
        lemma_pieces_label(t, rest, d + paren_delta(c), cur.push(c));
        assert(cur.push(c) + t =~= cur + l);
    }
}

proof fn lemma_pieces_join(q: Seq<Seq<char>>, cur: Seq<char>)
    requires
        q.len() > 0,
        forall|i: int| 0 <= i < q.len() ==> nested_from(#[trigger] q[i], 0) && depth(q[i]) == 0,
    ensures
        pieces(join(q), 0, cur) == seq![cur + q[0]] + q.drop_first().map_values(
            |x: Seq<char>| seq![' '] + x,
        ),
        balanced_from(join(q), 0),
    decreases q.len(),
{
    assert(nested_from(q[0], 0) && depth(q[0]) == 0);
    if q.len() == 1 {
        lemma_pieces_label(q[0], Seq::empty(), 0, cur);
        assert(q[0] + Seq::<char>::empty() =~= q[0]);
        assert(q.drop_first().map_values(|x: Seq<char>| seq![' '] + x) =~= Seq::<Seq<char>>::empty());
        assert(seq![cur + q[0]] + Seq::<Seq<char>>::empty() =~= seq![cur + q[0]]);
    } else {
        let t = q.drop_first();
        let tail = seq![',', ' '] + join(t);
        assert(join(q) =~= q[0] + tail);
        lemma_pieces_label(q[0], tail, 0, cur);
        assert(tail[0] == ',');
        assert(tail.drop_first() =~= seq![' '] + join(t));
        assert((seq![' '] + join(t))[0] == ' ');
        assert((seq![' '] + join(t)).drop_first() =~= join(t));
        assert(Seq::<char>::empty().push(' ') =~= seq![' ']);
        lemma_pieces_join(t, seq![' ']);
        let sp = seq![' '] + join(t);
        assert(pieces(tail, 0, cur + q[0]) == seq![cur + q[0]] + pieces(sp, 0, Seq::empty()));
        assert(pieces(sp, 0, Seq::empty()) == pieces(join(t), 0, seq![' ']));
        assert(balanced_from(tail, 0) == balanced_from(sp, 0));
        assert(balanced_from(sp, 0) == balanced_from(join(t), 0));
        let m = q.drop_first().map_values(|x: Seq<char>| seq![' '] + x);
        let mt = t.drop_first().map_values(|x: Seq<char>| seq![' '] + x);
        assert(m =~= seq![seq![' '] + t[0]] + mt);
        assert(pieces(join(q), 0, cur) =~= seq![cur + q[0]] + m);
    }
}

/// Reading back the composite name of a non-empty finite set of balanced
/// labels, with no comma outside parentheses, gives the set itself.
pub proof fn lemma_decode_encode(s: Set<Seq<char>>)
    requires
        s.finite(),
        s.len() > 0,
        forall|x: Seq<char>| #[trigger] s.contains(x) ==> nested_from(x, 0) && depth(x) == 0,
    ensures
        decode(encode(s)) == Some(s),
{
    lemma_sorted_exists(s);
    let q = sorted_members(s);
    if q.len() == 0 {
        assert(s.contains(s.choose()));
        assert(!q.to_set().contains(s.choose()));
    }
    assert forall|i: int| 0 <= i < q.len() implies nested_from(#[trigger] q[i], 0) && depth(q[i]) == 0 by {
        assert(q.to_set().contains(q[i]));
    }
    let e = encode(s);
    let body = join(q);
    assert(inner(e) =~= body);
    lemma_pieces_join(q, Seq::empty());
    let ps = pieces(body, 0, Seq::empty());
    assert(Seq::<char>::empty() + q[0] =~= q[0]);
    assert(stripped(ps) =~= q) by {
        assert forall|i: int| 1 <= i < q.len() implies strip_space(#[trigger] ps[i]) == q[i] by {
            assert(ps[i] == seq![' '] + q[i]);
            assert((seq![' '] + q[i]).drop_first() =~= q[i]);
        }
    }
    lemma_stripped_members(ps);
}

/// A sequence nested from one depth is nested from any greater depth.
pub proof fn lemma_nested_mono_pub(a: Seq<char>, d: int, e: int)
    requires
        nested_from(a, d),
        d <= e,
    ensures
        nested_from(a, e),
{
    lemma_nested_mono(a, d, e);
}

/// Member labels are nested labels.
pub proof fn lemma_members_nested(s: Set<Seq<char>>)
    requires
        forall|x: Seq<char>| s.contains(x) ==> is_member_label(x),
    ensures
        forall|x: Seq<char>| s.contains(x) ==> is_nested_label(x),
{
    assert forall|x: Seq<char>| s.contains(x) implies is_nested_label(x) by {
        assert(is_member_label(x));
    }
}

/// Distinct non-empty finite sets of nested labels have distinct composite names.
pub proof fn lemma_encode_injective_nonempty(a: Set<Seq<char>>, b: Set<Seq<char>>)
    requires
        a.finite(),
        b.finite(),
        a.len() > 0,
        b.len() > 0,
        forall|x: Seq<char>| a.contains(x) ==> is_nested_label(x),
        forall|x: Seq<char>| b.contains(x) ==> is_nested_label(x),
        encode(a) == encode(b),
    ensures
        a == b,
{
    assert forall|x: Seq<char>| #[trigger] a.contains(x) implies nested_from(x, 0) && depth(x) == 0 by {
        assert(is_nested_label(x));
    }
    assert forall|x: Seq<char>| #[trigger] b.contains(x) implies nested_from(x, 0) && depth(x) == 0 by {
        assert(is_nested_label(x));
    }
    lemma_decode_encode(a);
    lemma_decode_encode(b);
}

/// Distinct finite sets of member labels have distinct composite names.
pub proof fn lemma_encode_injective(a: Set<Seq<char>>, b: Set<Seq<char>>)
    requires
        a.finite(),
        b.finite(),
        forall|x: Seq<char>| a.contains(x) ==> is_member_label(x),
        forall|x: Seq<char>| b.contains(x) ==> is_member_label(x),
        encode(a) == encode(b),
    ensures
        a == b,
{
    if a.len() > 0 && b.len() > 0 {
        assert forall|x: Seq<char>| #[trigger] a.contains(x) implies nested_from(x, 0) && depth(x) == 0 by {
            assert(is_member_label(x));
        }
        assert forall|x: Seq<char>| #[trigger] b.contains(x) implies nested_from(x, 0) && depth(x) == 0 by {
            assert(is_member_label(x));
        }
        lemma_decode_encode(a);
        lemma_decode_encode(b);
    } else if a.len() == 0 && b.len() == 0 {
        a.lemma_len0_is_empty();
        b.lemma_len0_is_empty();
    } else {
        lemma_sorted_exists(a);
        lemma_sorted_exists(b);
        let (e, n) = if a.len() == 0 { (a, b) } else { (b, a) };
        e.lemma_len0_is_empty();
        let qe = sorted_members(e);
        let qn = sorted_members(n);
        assert(qe.len() == 0) by {
            if qe.len() > 0 {
                assert(qe.to_set().contains(qe[0]));
            }
        }
        assert(qn.len() > 0) by {
            if qn.len() == 0 {
                assert(n.contains(n.choose()));
                assert(!qn.to_set().contains(n.choose()));
            }
        }
        assert(qn.to_set().contains(qn[0]));
        assert(is_member_label(qn[0]));
        lemma_join_len(qn);
        assert(encode(e).len() == 2);
    }
}

proof fn lemma_join_len(q: Seq<Seq<char>>)
    requires
        q.len() > 0,
    ensures
        join(q).len() >= q[0].len(),
    decreases q.len(),
{
}

pub proof fn lemma_depth_concat(a: Seq<char>, b: Seq<char>)
    ensures
        depth(a + b) == depth(a) + depth(b),
    decreases a.len(),
{
    if a.len() == 0 {
        assert(a + b =~= b);
    } else {
        assert((a + b).drop_first() =~= a.drop_first() + b);
        lemma_depth_concat(a.drop_first(), b);
    }
}

pub proof fn lemma_nested_concat(a: Seq<char>, b: Seq<char>, d: int)
    ensures
        nested_from(a + b, d) == (nested_from(a, d) && nested_from(b, d + depth(a))),
    decreases a.len(),
{
    if a.len() == 0 {
        assert(a + b =~= b);
    } else {
        assert((a + b).drop_first() =~= a.drop_first() + b);
        assert((a + b)[0] == a[0]);
        lemma_nested_concat(a.drop_first(), b, d + paren_delta(a[0]));
    }
}

proof fn lemma_nested_mono(a: Seq<char>, d: int, e: int)
    requires
        nested_from(a, d),
        d <= e,
    ensures
        nested_from(a, e),
    decreases a.len(),
{
    if a.len() > 0 {
        lemma_nested_mono(a.drop_first(), d + paren_delta(a[0]), e + paren_delta(a[0]));
    }
}

proof fn lemma_join_nested(q: Seq<Seq<char>>)
    requires
        forall|i: int| 0 <= i < q.len() ==> is_nested_label(#[trigger] q[i]),
    ensures
        depth(join(q)) == 0,
        nested_from(join(q), 1),
    decreases q.len(),
{
    if q.len() == 1 {
        assert(is_nested_label(q[0]));
        lemma_nested_mono(q[0], 0, 1);
    } else if q.len() > 1 {
        let t = q.drop_first();
        assert(is_nested_label(q[0]));
        assert forall|i: int| 0 <= i < t.len() implies is_nested_label(#[trigger] t[i]) by {
            assert(t[i] == q[i + 1]);
        }
        lemma_join_nested(t);
        lemma_nested_mono(q[0], 0, 1);
        let sep = seq![',', ' '];
        assert(depth(sep) == 0) by {
            reveal_with_fuel(depth, 3);
            assert(sep.drop_first() =~= seq![' ']);
            assert(seq![' '].drop_first() =~= Seq::<char>::empty());
        }
        assert(nested_from(sep, 1)) by {
            reveal_with_fuel(nested_from, 3);
            assert(sep.drop_first() =~= seq![' ']);
            assert(seq![' '].drop_first() =~= Seq::<char>::empty());
        }
        lemma_depth_concat(q[0], sep);
        lemma_depth_concat(q[0] + sep, join(t));
        lemma_nested_concat(q[0], sep, 1);
        lemma_nested_concat(q[0] + sep, join(t), 1);
    }
}

/// The composite name of a finite set of nested labels is a member label.
pub proof fn lemma_encode_member(s: Set<Seq<char>>)
    requires
        s.finite(),
        forall|x: Seq<char>| s.contains(x) ==> is_nested_label(x),
    ensures
        is_member_label(encode(s)),
{
    lemma_sorted_exists(s);
    let q = sorted_members(s);
    assert forall|i: int| 0 <= i < q.len() implies is_nested_label(#[trigger] q[i]) by {
        assert(q.to_set().contains(q[i]));
    }
    lemma_join_nested(q);
    let open = seq!['('];
    let close = seq![')'];
    assert(depth(open) == 1) by {
        reveal_with_fuel(depth, 2);
        assert(open.drop_first() =~= Seq::<char>::empty());
    }
    assert(depth(close) == -1) by {
        reveal_with_fuel(depth, 2);
        assert(close.drop_first() =~= Seq::<char>::empty());
    }
    assert(nested_from(open, 0)) by {
        reveal_with_fuel(nested_from, 2);
        assert(open.drop_first() =~= Seq::<char>::empty());
    }
    assert(nested_from(close, 1)) by {
        reveal_with_fuel(nested_from, 2);
        assert(close.drop_first() =~= Seq::<char>::empty());
    }
    lemma_depth_concat(open, join(q));
    lemma_depth_concat(open + join(q), close);
    lemma_nested_concat(open, join(q), 0);
    lemma_nested_concat(open + join(q), close, 0);
}

/// No parenthesis and no comma.
pub open spec fn is_plain(s: Seq<char>) -> bool {
    forall|i: int| 0 <= i < s.len() ==> s[i] != '(' && s[i] != ')' && s[i] != ','
}

/// Reading back the composite name of a non-empty finite set of labels
/// without parentheses or commas gives the set itself.
pub proof fn lemma_decode_encode_plain(s: Set<Seq<char>>)
    requires
        s.finite(),
        s.len() > 0,
        forall|x: Seq<char>| s.contains(x) ==> is_plain(x),
    ensures
        decode(encode(s)) == Some(s),
{
    assert forall|x: Seq<char>| #[trigger] s.contains(x) implies nested_from(x, 0) && depth(x) == 0 by {
        lemma_plain_nested(x);
    }
    lemma_decode_encode(s);
}

/// A non-empty label without parentheses or commas is a member label.
pub proof fn lemma_plain_member(s: Seq<char>)
    requires
        s.len() > 0,
        is_plain(s),
    ensures
        is_member_label(s),
{
    lemma_plain_nested(s);
}

proof fn lemma_plain_nested(s: Seq<char>)
    requires
        is_plain(s),
    ensures
        nested_from(s, 0),
        depth(s) == 0,
    decreases s.len(),
{
    if s.len() > 0 {
        assert(is_plain(s.drop_first())) by {
            assert forall|i: int| 0 <= i < s.drop_first().len() implies s.drop_first()[i] != '(' && s.drop_first()[i]
                != ')' && s.drop_first()[i] != ',' by {
                assert(s.drop_first()[i] == s[i + 1]);
            }
        }
        lemma_plain_nested(s.drop_first());
    }
}

} // verus!
