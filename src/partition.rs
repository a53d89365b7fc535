//! Partition refinement on an indexed transition table.
use vstd::prelude::*;

verus! {

/// The class of a target, or `None` where there is no move.
pub open spec fn target_class(cls: Seq<usize>, t: Option<usize>) -> Option<usize> {
    match t {
        Some(x) => Some(cls[x as int]),
        None => None,
    }
}

/// A table of `n` rows, each with `k` moves into `0..n`.
pub open spec fn table_ok(tgt: Seq<Vec<Option<usize>>>, n: nat, k: nat) -> bool {
    &&& tgt.len() == n
    &&& forall|i: int| 0 <= i < n ==> (#[trigger] tgt[i])@.len() == k
    &&& forall|i: int, a: int|
        0 <= i < n && 0 <= a < k ==> match (#[trigger] tgt[i]@[a]) {
            Some(t) => t < n,
            None => true,
        }
}

/// Rows `i` and `j` move into the same classes on every symbol.
pub open spec fn rows_agree(cls: Seq<usize>, tgt: Seq<Vec<Option<usize>>>, k: nat, i: int, j: int) -> bool {
    forall|a: int| 0 <= a < k ==> target_class(cls, #[trigger] tgt[i]@[a]) == target_class(cls, tgt[j]@[a])
}

/// A labelling of `0..n` by class representatives.
pub open spec fn is_labelling(cls: Seq<usize>, n: nat) -> bool {
    &&& cls.len() == n
    &&& forall|i: int| 0 <= i < n ==> (#[trigger] cls[i]) < n
}

/// A partition that is stable: each index is labelled by a representative of
/// its own class, classes respect the acceptance flags, and members of a
/// class move into the same classes.
pub open spec fn is_congruence(
    cls: Seq<usize>,
    acc: Seq<bool>,
    tgt: Seq<Vec<Option<usize>>>,
    n: nat,
    k: nat,
) -> bool {
    &&& is_labelling(cls, n)
    &&& forall|i: int| 0 <= i < n ==> cls[#[trigger] cls[i] as int] == cls[i]
    &&& forall|i: int, j: int| 0 <= i < n && 0 <= j < n && #[trigger] cls[i] == #[trigger] cls[j] ==> acc[i] == acc[j]
    &&& forall|i: int, j: int|
        0 <= i < n && 0 <= j < n && #[trigger] cls[i] == #[trigger] cls[j] ==> rows_agree(cls, tgt, k, i, j)
}

fn same_target_class(cls: &Vec<usize>, x: Option<usize>, y: Option<usize>) -> (r: bool)
    requires
        match x {
            Some(t) => t < cls.len(),
            None => true,
        },
        match y {
            Some(t) => t < cls.len(),
            None => true,
        },
    ensures
        r == (target_class(cls@, x) == target_class(cls@, y)),
{
    match (x, y) {
        (Some(a), Some(b)) => cls[a] == cls[b],
        (None, None) => true,
        _ => false,
    }
}

fn rows_agree_exec(cls: &Vec<usize>, tgt: &Vec<Vec<Option<usize>>>, k: usize, i: usize, j: usize) -> (r: bool)
    requires
        table_ok(tgt@, cls.len() as nat, k as nat),
        i < cls.len(),
        j < cls.len(),
    ensures
        r == rows_agree(cls@, tgt@, k as nat, i as int, j as int),
{
    let mut a: usize = 0;
    while a < k
        invariant
            table_ok(tgt@, cls.len() as nat, k as nat),
            i < cls.len(),
            j < cls.len(),
            a <= k,
            forall|b: int| 0 <= b < a ==> target_class(cls@, #[trigger] tgt@[i as int]@[b]) == target_class(cls@, tgt@[j as int]@[b]),
        decreases k - a,
    {
        assert(tgt@[i as int]@.len() == k);
        assert(tgt@[j as int]@.len() == k);
        if !same_target_class(cls, tgt[i][a], tgt[j][a]) {
            return false;
        }
        a = a + 1;
    }
    true
}

/// One round of refinement: each index is relabelled by the first index of
/// its class whose row agrees with its own.
fn refine(cls: &Vec<usize>, tgt: &Vec<Vec<Option<usize>>>, k: usize) -> (r: Vec<usize>)
    requires
        is_labelling(cls@, cls.len() as nat),
        table_ok(tgt@, cls.len() as nat, k as nat),
    ensures
        is_labelling(r@, cls.len() as nat),
        forall|i: int| 0 <= i < cls.len() ==> (#[trigger] r[i]) <= i && cls[r[i] as int] == cls[i]
            && rows_agree(cls@, tgt@, k as nat, r[i] as int, i),
        forall|i: int, y: int| 0 <= y < r[i] && 0 <= i < cls.len() ==> !(cls[y] == cls[i] && #[trigger] rows_agree(cls@, tgt@, k as nat, y, i)),
{
    let n = cls.len();
    let mut r: Vec<usize> = Vec::new();
    let mut i: usize = 0;
    while i < n
        invariant
            n == cls.len(),
            is_labelling(cls@, n as nat),
            table_ok(tgt@, n as nat, k as nat),
            i <= n,
            r.len() == i,
            forall|x: int| 0 <= x < i ==> (#[trigger] r[x]) <= x && cls[r[x] as int] == cls[x]
                && rows_agree(cls@, tgt@, k as nat, r[x] as int, x),
            forall|x: int, y: int| 0 <= y < r[x] && 0 <= x < i ==> !(cls[y] == cls[x] && #[trigger] rows_agree(cls@, tgt@, k as nat, y, x)),
        decreases n - i,
    {
        let mut j: usize = 0;
        while j < i && !(cls[j] == cls[i] && rows_agree_exec(cls, tgt, k, j, i))
            invariant
                n == cls.len(),
                table_ok(tgt@, n as nat, k as nat),
                i < n,
                j <= i,
                forall|y: int| 0 <= y < j ==> !(cls[y] == cls[i as int] && #[trigger] rows_agree(cls@, tgt@, k as nat, y, i as int)),
            decreases i - j,
        {
            j = j + 1;
        }
        if j == i {
            proof {
                assert forall|a: int| 0 <= a < k implies target_class(cls@, #[trigger] tgt@[i as int]@[a]) == target_class(cls@, tgt@[i as int]@[a]) by {}
            }
        }
        r.push(j);
        i = i + 1;
    }
    r
}

fn same_labelling(a: &Vec<usize>, b: &Vec<usize>) -> (r: bool)
    requires
        a.len() == b.len(),
    ensures
        r == (a@ == b@),
{
    let mut i: usize = 0;
    while i < a.len()
        invariant
            a.len() == b.len(),
            i <= a.len(),
            forall|x: int| 0 <= x < i ==> a[x] == b[x],
        decreases a.len() - i,
    {
        if a[i] != b[i] {
            return false;
        }
        i = i + 1;
    }
    proof {
        assert(a@ =~= b@);
    }
    true
}

/// Where reading the symbol indices `w` from row `i` leads.
pub open spec fn irun(tgt: Seq<Vec<Option<usize>>>, i: int, w: Seq<int>) -> Option<int>
    decreases w.len(),
{
    if w.len() == 0 {
        Some(i)
    } else {
        match tgt[i]@[w[0]] {
            Some(t) => irun(tgt, t as int, w.drop_first()),
            None => None,
        }
    }
}

/// Whether reading `w` from row `i` ends in an accepting row.
pub open spec fn iaccepts(acc: Seq<bool>, tgt: Seq<Vec<Option<usize>>>, i: int, w: Seq<int>) -> bool {
    match irun(tgt, i, w) {
        Some(t) => acc[t],
        None => false,
    }
}

/// Every symbol index of `w` is below `k`.
pub open spec fn valid_word(w: Seq<int>, k: nat) -> bool {
    forall|x: int| 0 <= x < w.len() ==> 0 <= #[trigger] w[x] < k
}

/// Some word tells rows `i` and `j` apart.
pub open spec fn distinguishable(acc: Seq<bool>, tgt: Seq<Vec<Option<usize>>>, k: nat, i: int, j: int) -> bool {
    exists|w: Seq<int>| valid_word(w, k) && #[trigger] iaccepts(acc, tgt, i, w) != iaccepts(acc, tgt, j, w)
}

/// Reading `w` from `i` and from `j` differs: one can read it and the other
/// cannot, or one accepts it and the other does not.
pub open spec fn behaves_differently(acc: Seq<bool>, tgt: Seq<Vec<Option<usize>>>, i: int, j: int, w: Seq<int>) -> bool {
    (irun(tgt, i, w) is Some) != (irun(tgt, j, w) is Some) || iaccepts(acc, tgt, i, w) != iaccepts(acc, tgt, j, w)
}

/// Some word is read differently from rows `i` and `j`.
pub open spec fn tells_apart(acc: Seq<bool>, tgt: Seq<Vec<Option<usize>>>, k: nat, i: int, j: int) -> bool {
    exists|w: Seq<int>| valid_word(w, k) && #[trigger] behaves_differently(acc, tgt, i, j, w)
}

/// Some word is accepted from row `t`.
pub open spec fn live(acc: Seq<bool>, tgt: Seq<Vec<Option<usize>>>, k: nat, t: int) -> bool {
    exists|w: Seq<int>| valid_word(w, k) && #[trigger] iaccepts(acc, tgt, t, w)
}

/// Wherever one row has no move on a symbol and another row has one, the
/// move leads to a row from which some word is accepted.
pub open spec fn gaps_live(acc: Seq<bool>, tgt: Seq<Vec<Option<usize>>>, n: nat, k: nat) -> bool {
    forall|i: int, j: int, a: int|
        0 <= i < n && 0 <= j < n && 0 <= a < k && (#[trigger] tgt[i]@[a]) is None && (#[trigger] tgt[j]@[a]) is Some
            ==> live(acc, tgt, k, tgt[j]@[a]->0 as int)
}

/// The indices that label their own class.
pub open spec fn reps(cls: Seq<usize>, n: nat) -> Set<int> {
    Set::new(|x: int| 0 <= x < n && cls[x] == x)
}

/// A labelling by least members: every index is labelled by the least index of its class.
pub open spec fn least_labelling(cls: Seq<usize>, n: nat) -> bool {
    &&& is_labelling(cls, n)
    &&& forall|i: int| 0 <= i < n ==> (#[trigger] cls[i]) <= i
    &&& forall|i: int| 0 <= i < n ==> cls[#[trigger] cls[i] as int] == cls[i]
}

proof fn lemma_agree(cls: Seq<usize>, tgt: Seq<Vec<Option<usize>>>, k: nat, x: int, y: int, z: int)
    requires
        rows_agree(cls, tgt, k, x, y),
        rows_agree(cls, tgt, k, y, z),
    ensures
        rows_agree(cls, tgt, k, x, z),
        rows_agree(cls, tgt, k, z, x),
        rows_agree(cls, tgt, k, y, x),
        rows_agree(cls, tgt, k, x, x),
{
    assert forall|a: int| 0 <= a < k implies target_class(cls, #[trigger] tgt[x]@[a]) == target_class(cls, tgt[z]@[a]) by {
        assert(target_class(cls, tgt[x]@[a]) == target_class(cls, tgt[y]@[a]));
        assert(target_class(cls, tgt[y]@[a]) == target_class(cls, tgt[z]@[a]));
    }
    assert forall|a: int| 0 <= a < k implies target_class(cls, #[trigger] tgt[z]@[a]) == target_class(cls, tgt[x]@[a]) by {
        assert(target_class(cls, tgt[x]@[a]) == target_class(cls, tgt[y]@[a]));
        assert(target_class(cls, tgt[y]@[a]) == target_class(cls, tgt[z]@[a]));
    }
    assert forall|a: int| 0 <= a < k implies target_class(cls, #[trigger] tgt[y]@[a]) == target_class(cls, tgt[x]@[a]) by {
        assert(target_class(cls, tgt[x]@[a]) == target_class(cls, tgt[y]@[a]));
    }
    assert forall|a: int| 0 <= a < k implies target_class(cls, #[trigger] tgt[x]@[a]) == target_class(cls, tgt[x]@[a]) by {}
}

/// Moving on `a` first, then reading `w`.
proof fn lemma_irun_step(tgt: Seq<Vec<Option<usize>>>, i: int, a: int, w: Seq<int>)
    ensures
        irun(tgt, i, seq![a] + w) == match tgt[i]@[a] {
            Some(t) => irun(tgt, t as int, w),
            None => None,
        },
{
    assert((seq![a] + w)[0] == a);
    assert((seq![a] + w).drop_first() =~= w);
}

proof fn lemma_valid_cons(a: int, w: Seq<int>, k: nat)
    requires
        0 <= a < k,
        valid_word(w, k),
    ensures
        valid_word(seq![a] + w, k),
{
    assert forall|x: int| 0 <= x < (seq![a] + w).len() implies 0 <= #[trigger] (seq![a] + w)[x] < k by {
        if x > 0 {
            assert((seq![a] + w)[x] == w[x - 1]);
        }
    }
}

proof fn lemma_reps_bounded(cls: Seq<usize>, n: nat)
    ensures
        reps(cls, n).finite(),
        reps(cls, n).len() <= n,
{
    vstd::set_lib::lemma_int_range(0, n as int);
    assert(reps(cls, n).subset_of(vstd::set_lib::set_int_range(0, n as int)));
    vstd::set_lib::lemma_len_subset(reps(cls, n), vstd::set_lib::set_int_range(0, n as int));
}

/// Members of one class of a stable partition accept the same words.
pub proof fn lemma_congruence_same_words(
    cls: Seq<usize>,
    acc: Seq<bool>,
    tgt: Seq<Vec<Option<usize>>>,
    n: nat,
    k: nat,
    i: int,
    j: int,
    w: Seq<int>,
)
    requires
        is_congruence(cls, acc, tgt, n, k),
        table_ok(tgt, n, k),
        0 <= i < n,
        0 <= j < n,
        cls[i] == cls[j],
        valid_word(w, k),
    ensures
        iaccepts(acc, tgt, i, w) == iaccepts(acc, tgt, j, w),
        (irun(tgt, i, w) is Some) == (irun(tgt, j, w) is Some),
    decreases w.len(),
{
    if w.len() > 0 {
        let a = w[0];
        assert(0 <= a < k);
        assert(rows_agree(cls, tgt, k, i, j));
        assert(target_class(cls, tgt[i]@[a]) == target_class(cls, tgt[j]@[a]));
        assert(valid_word(w.drop_first(), k)) by {
            assert forall|x: int| 0 <= x < w.drop_first().len() implies 0 <= #[trigger] w.drop_first()[x] < k by {
                assert(w.drop_first()[x] == w[x + 1]);
            }
        }
        match tgt[i]@[a] {
            Some(t1) => {
                let t2 = tgt[j]@[a]->0;
                lemma_congruence_same_words(cls, acc, tgt, n, k, t1 as int, t2 as int, w.drop_first());
            },
            None => {},
        }
    }
}

/// Distinct rows whose moves on one symbol lead to rows already told apart,
/// or where only one of them moves into a live row, are told apart.
proof fn lemma_split_distinguishable(
    cls: Seq<usize>,
    acc: Seq<bool>,
    tgt: Seq<Vec<Option<usize>>>,
    n: nat,
    k: nat,
    i: int,
    j: int,
    a: int,
)
    requires
        table_ok(tgt, n, k),
        is_labelling(cls, n),
        0 <= i < n,
        0 <= j < n,
        0 <= a < k,
        target_class(cls, tgt[i]@[a]) != target_class(cls, tgt[j]@[a]),
        gaps_live(acc, tgt, n, k),
        forall|x: int, y: int| 0 <= x < n && 0 <= y < n && #[trigger] cls[x] != #[trigger] cls[y] ==> distinguishable(acc, tgt, k, x, y),
    ensures
        distinguishable(acc, tgt, k, i, j),
{
    match (tgt[i]@[a], tgt[j]@[a]) {
        (Some(t1), Some(t2)) => {
            assert(cls[t1 as int] != cls[t2 as int]);
            assert(distinguishable(acc, tgt, k, t1 as int, t2 as int));
            let w = choose|w: Seq<int>| valid_word(w, k) && #[trigger] iaccepts(acc, tgt, t1 as int, w) != iaccepts(acc, tgt, t2 as int, w);
            lemma_irun_step(tgt, i, a, w);
            lemma_irun_step(tgt, j, a, w);
            lemma_valid_cons(a, w, k);
            assert(iaccepts(acc, tgt, i, seq![a] + w) != iaccepts(acc, tgt, j, seq![a] + w));
        },
        (Some(t1), None) => {
            assert(live(acc, tgt, k, t1 as int));
            let w = choose|w: Seq<int>| valid_word(w, k) && #[trigger] iaccepts(acc, tgt, t1 as int, w);
            lemma_irun_step(tgt, i, a, w);
            lemma_irun_step(tgt, j, a, w);
            lemma_valid_cons(a, w, k);
            assert(iaccepts(acc, tgt, i, seq![a] + w) != iaccepts(acc, tgt, j, seq![a] + w));
        },
        (None, Some(t2)) => {
            assert(live(acc, tgt, k, t2 as int));
            let w = choose|w: Seq<int>| valid_word(w, k) && #[trigger] iaccepts(acc, tgt, t2 as int, w);
            lemma_irun_step(tgt, i, a, w);
            lemma_irun_step(tgt, j, a, w);
            lemma_valid_cons(a, w, k);
            assert(iaccepts(acc, tgt, i, seq![a] + w) != iaccepts(acc, tgt, j, seq![a] + w));
        },
        (None, None) => {},
    }
}

/// Rows whose moves on one symbol lead to classes already told apart, or
/// where only one of them moves, are told apart.
proof fn lemma_split_tells(
    cls: Seq<usize>,
    acc: Seq<bool>,
    tgt: Seq<Vec<Option<usize>>>,
    n: nat,
    k: nat,
    i: int,
    j: int,
    a: int,
)
    requires
        table_ok(tgt, n, k),
        is_labelling(cls, n),
        0 <= i < n,
        0 <= j < n,
        0 <= a < k,
        target_class(cls, tgt[i]@[a]) != target_class(cls, tgt[j]@[a]),
        forall|x: int, y: int| 0 <= x < n && 0 <= y < n && #[trigger] cls[x] != #[trigger] cls[y] ==> tells_apart(acc, tgt, k, x, y),
    ensures
        tells_apart(acc, tgt, k, i, j),
{
    match (tgt[i]@[a], tgt[j]@[a]) {
        (Some(t1), Some(t2)) => {
            assert(cls[t1 as int] != cls[t2 as int]);
            assert(tells_apart(acc, tgt, k, t1 as int, t2 as int));
            let w = choose|w: Seq<int>| valid_word(w, k) && #[trigger] behaves_differently(acc, tgt, t1 as int, t2 as int, w);
            lemma_irun_step(tgt, i, a, w);
            lemma_irun_step(tgt, j, a, w);
            lemma_valid_cons(a, w, k);
            assert(behaves_differently(acc, tgt, i, j, seq![a] + w));
        },
        (None, None) => {},
        _ => {
            let w = Seq::<int>::empty();
            lemma_irun_step(tgt, i, a, w);
            lemma_irun_step(tgt, j, a, w);
            lemma_valid_cons(a, w, k);
            assert(behaves_differently(acc, tgt, i, j, seq![a] + w));
        },
    }
}

/// What one round of refinement gives.
pub open spec fn refined(cls: Seq<usize>, next: Seq<usize>, tgt: Seq<Vec<Option<usize>>>, n: nat, k: nat) -> bool {
    &&& is_labelling(next, n)
    &&& forall|i: int| 0 <= i < n ==> (#[trigger] next[i]) <= i && cls[next[i] as int] == cls[i]
        && rows_agree(cls, tgt, k, next[i] as int, i)
    &&& forall|i: int, y: int| 0 <= y < next[i] && 0 <= i < n ==> !(cls[y] == cls[i] && #[trigger] rows_agree(cls, tgt, k, y, i))
}

proof fn lemma_step_labels(cls: Seq<usize>, next: Seq<usize>, tgt: Seq<Vec<Option<usize>>>, n: nat, k: nat)
    requires
        least_labelling(cls, n),
        refined(cls, next, tgt, n, k),
    ensures
        least_labelling(next, n),
{
    assert forall|x: int| 0 <= x < n implies next[#[trigger] next[x] as int] == next[x] by {
        let x0 = next[x] as int;
        assert(rows_agree(cls, tgt, k, x0, x));
        lemma_agree(cls, tgt, k, x0, x, x);
        if next[x0] < x0 {
            let y = next[x0] as int;
            assert(rows_agree(cls, tgt, k, y, x0));
            lemma_agree(cls, tgt, k, y, x0, x);
            assert(!(cls[y] == cls[x] && rows_agree(cls, tgt, k, y, x)));
        }
    }
}

proof fn lemma_step_stable(cls: Seq<usize>, next: Seq<usize>, tgt: Seq<Vec<Option<usize>>>, n: nat, k: nat)
    requires
        least_labelling(cls, n),
        refined(cls, next, tgt, n, k),
        next == cls,
    ensures
        forall|x: int, y: int| 0 <= x < n && 0 <= y < n && #[trigger] cls[x] == #[trigger] cls[y] ==> rows_agree(cls, tgt, k, x, y),
{
    assert forall|x: int, y: int| 0 <= x < n && 0 <= y < n && #[trigger] cls[x] == #[trigger] cls[y] implies rows_agree(cls, tgt, k, x, y) by {
        assert(rows_agree(cls, tgt, k, cls[x] as int, x));
        assert(rows_agree(cls, tgt, k, cls[y] as int, y));
        lemma_agree(cls, tgt, k, x, cls[x] as int, cls[x] as int);
        lemma_agree(cls, tgt, k, x, cls[x] as int, y);
    }
}

proof fn lemma_step_acc(cls: Seq<usize>, next: Seq<usize>, acc: Seq<bool>, tgt: Seq<Vec<Option<usize>>>, n: nat, k: nat)
    requires
        refined(cls, next, tgt, n, k),
        forall|x: int, y: int| 0 <= x < n && 0 <= y < n && #[trigger] cls[x] == #[trigger] cls[y] ==> acc[x] == acc[y],
    ensures
        forall|x: int, y: int| 0 <= x < n && 0 <= y < n && #[trigger] next[x] == #[trigger] next[y] ==> acc[x] == acc[y],
{
    assert forall|x: int, y: int| 0 <= x < n && 0 <= y < n && #[trigger] next[x] == #[trigger] next[y] implies acc[x] == acc[y] by {
        assert(cls[next[x] as int] == cls[x]);
        assert(cls[next[y] as int] == cls[y]);
    }
}

/// Rows of one old class that get different new labels disagree on some symbol.
proof fn lemma_step_split(cls: Seq<usize>, next: Seq<usize>, tgt: Seq<Vec<Option<usize>>>, n: nat, k: nat, x: int, y: int)
    requires
        refined(cls, next, tgt, n, k),
        0 <= x < n,
        0 <= y < n,
        cls[x] == cls[y],
        next[x] != next[y],
    ensures
        !rows_agree(cls, tgt, k, x, y),
{
    if rows_agree(cls, tgt, k, x, y) {
        let x0 = next[x] as int;
        let y0 = next[y] as int;
        assert(rows_agree(cls, tgt, k, x0, x));
        lemma_agree(cls, tgt, k, x0, x, y);
        assert(rows_agree(cls, tgt, k, y0, y));
        lemma_agree(cls, tgt, k, x, y, y);
        lemma_agree(cls, tgt, k, y0, y, x);
        if x0 < y0 {
            assert(!(cls[x0] == cls[y] && rows_agree(cls, tgt, k, x0, y)));
        } else {
            assert(!(cls[y0] == cls[x] && rows_agree(cls, tgt, k, y0, x)));
        }
    }
}

proof fn lemma_step_tells(cls: Seq<usize>, next: Seq<usize>, acc: Seq<bool>, tgt: Seq<Vec<Option<usize>>>, n: nat, k: nat)
    requires
        table_ok(tgt, n, k),
        least_labelling(cls, n),
        refined(cls, next, tgt, n, k),
        forall|x: int, y: int| 0 <= x < n && 0 <= y < n && #[trigger] cls[x] != #[trigger] cls[y] ==> tells_apart(acc, tgt, k, x, y),
    ensures
        forall|x: int, y: int| 0 <= x < n && 0 <= y < n && #[trigger] next[x] != #[trigger] next[y] ==> tells_apart(acc, tgt, k, x, y),
{
    assert forall|x: int, y: int| 0 <= x < n && 0 <= y < n && #[trigger] next[x] != #[trigger] next[y] implies tells_apart(acc, tgt, k, x, y) by {
        if cls[x] == cls[y] {
            lemma_step_split(cls, next, tgt, n, k, x, y);
            let a = choose|a: int| 0 <= a < k && target_class(cls, #[trigger] tgt[x]@[a]) != target_class(cls, tgt[y]@[a]);
            lemma_split_tells(cls, acc, tgt, n, k, x, y, a);
        }
    }
}

proof fn lemma_step_dist(cls: Seq<usize>, next: Seq<usize>, acc: Seq<bool>, tgt: Seq<Vec<Option<usize>>>, n: nat, k: nat)
    requires
        table_ok(tgt, n, k),
        least_labelling(cls, n),
        refined(cls, next, tgt, n, k),
        gaps_live(acc, tgt, n, k),
        forall|x: int, y: int| 0 <= x < n && 0 <= y < n && #[trigger] cls[x] != #[trigger] cls[y] ==> distinguishable(acc, tgt, k, x, y),
    ensures
        forall|x: int, y: int| 0 <= x < n && 0 <= y < n && #[trigger] next[x] != #[trigger] next[y] ==> distinguishable(acc, tgt, k, x, y),
{
    assert forall|x: int, y: int| 0 <= x < n && 0 <= y < n && #[trigger] next[x] != #[trigger] next[y] implies distinguishable(acc, tgt, k, x, y) by {
        if cls[x] == cls[y] {
            lemma_step_split(cls, next, tgt, n, k, x, y);
            let a = choose|a: int| 0 <= a < k && target_class(cls, #[trigger] tgt[x]@[a]) != target_class(cls, tgt[y]@[a]);
            lemma_split_distinguishable(cls, acc, tgt, n, k, x, y, a);
        }
    }
}

/// A round that changes the labels adds a class.
proof fn lemma_step_grows(cls: Seq<usize>, next: Seq<usize>, tgt: Seq<Vec<Option<usize>>>, n: nat, k: nat)
    requires
        least_labelling(cls, n),
        least_labelling(next, n),
        refined(cls, next, tgt, n, k),
        next != cls,
    ensures
        reps(cls, n).len() < reps(next, n).len(),
        reps(next, n).len() <= n,
{
    assert(reps(cls, n).subset_of(reps(next, n))) by {
        assert forall|c: int| reps(cls, n).contains(c) implies reps(next, n).contains(c) by {
            assert(cls[next[c] as int] == cls[c]);
            assert(cls[next[c] as int] <= next[c]);
        }
    }
    assert(!(next =~= cls));
    let x = choose|x: int| 0 <= x < n && next[x] != cls[x];
    let x0 = next[x] as int;
    assert(reps(next, n).contains(x0));
    assert(!reps(cls, n).contains(x0)) by {
        if cls[x0] == x0 {
            assert(cls[x0] == cls[x]);
        }
    }
    lemma_reps_bounded(cls, n);
    lemma_reps_bounded(next, n);
    assert(reps(cls, n).insert(x0).subset_of(reps(next, n)));
    vstd::set_lib::lemma_len_subset(reps(cls, n).insert(x0), reps(next, n));
}

/// The coarsest stable partition of `0..n` that separates accepting from
/// non-accepting indices: starting from that split, rounds of refinement run
/// until nothing changes. Each round that changes something adds a class, so
/// this ends. Where every missing move faces only live moves, distinct
/// classes are told apart by some word.
pub fn stable_partition(acc: &Vec<bool>, tgt: &Vec<Vec<Option<usize>>>, k: usize) -> (r: Vec<usize>)
    requires
        table_ok(tgt@, acc.len() as nat, k as nat),
    ensures
        is_congruence(r@, acc@, tgt@, acc.len() as nat, k as nat),
        forall|i: int, j: int|
            0 <= i < acc.len() && 0 <= j < acc.len() && #[trigger] r[i] != #[trigger] r[j] ==> tells_apart(
                acc@,
                tgt@,
                k as nat,
                i,
                j,
            ),
        gaps_live(acc@, tgt@, acc.len() as nat, k as nat) ==> forall|i: int, j: int|
            0 <= i < acc.len() && 0 <= j < acc.len() && #[trigger] r[i] != #[trigger] r[j] ==> distinguishable(
                acc@,
                tgt@,
                k as nat,
                i,
                j,
            ),
{
    let n = acc.len();
    let ghost nn = n as nat;
    let ghost kk = k as nat;
    let mut cls: Vec<usize> = Vec::new();
    let mut i: usize = 0;
    while i < n
        invariant
            n == acc.len(),
            i <= n,
            cls.len() == i,
            forall|x: int| 0 <= x < i ==> (#[trigger] cls[x]) <= x && acc[cls[x] as int] == acc[x],
            forall|x: int, y: int| #![trigger cls[x], acc[y]] 0 <= x < i && 0 <= y < cls[x] ==> acc[y] != acc[x],
        decreases n - i,
    {
        let mut j: usize = 0;
        while j < i && acc[j] != acc[i]
            invariant
                n == acc.len(),
                i < n,
                j <= i,
                forall|y: int| 0 <= y < j ==> acc[y] != acc[i as int],
            decreases i - j,
        {
            j = j + 1;
        }
        cls.push(j);
        i = i + 1;
    }
    proof {
        assert forall|x: int, y: int| 0 <= x < n && 0 <= y < n && #[trigger] cls[x] == #[trigger] cls[y] implies acc[x] == acc[y] by {
            assert(acc[cls[x] as int] == acc[x]);
        }
        assert forall|x: int| 0 <= x < n implies cls[#[trigger] cls[x] as int] == cls[x] by {
            let c = cls[x] as int;
            assert(acc[c] == acc[x]);
            if cls[c] < c {
                assert(acc[cls[c] as int] == acc[c]);
            }
        }
        assert forall|x: int, y: int| 0 <= x < n && 0 <= y < n && #[trigger] cls[x] != #[trigger] cls[y] implies distinguishable(acc@, tgt@, kk, x, y) by {
            if acc[x] == acc[y] {
                if cls[x] < cls[y] {
                    assert(acc[cls[x] as int] == acc[y]);
                } else {
                    assert(acc[cls[y] as int] == acc[x]);
                }
            }
            let w = Seq::<int>::empty();
            assert(irun(tgt@, x, w) == Some(x));
            assert(irun(tgt@, y, w) == Some(y));
            assert(iaccepts(acc@, tgt@, x, w) != iaccepts(acc@, tgt@, y, w));
        }
        assert forall|x: int, y: int| 0 <= x < n && 0 <= y < n && #[trigger] cls[x] != #[trigger] cls[y] implies tells_apart(acc@, tgt@, kk, x, y) by {
            assert(distinguishable(acc@, tgt@, kk, x, y));
            let w = choose|w: Seq<int>| valid_word(w, kk) && #[trigger] iaccepts(acc@, tgt@, x, w) != iaccepts(acc@, tgt@, y, w);
            assert(behaves_differently(acc@, tgt@, x, y, w));
        }
        lemma_reps_bounded(cls@, nn);
    }
    loop
        invariant
            n == acc.len(),
            nn == n,
            kk == k,
            table_ok(tgt@, nn, kk),
            least_labelling(cls@, nn),
            forall|x: int, y: int| 0 <= x < n && 0 <= y < n && #[trigger] cls[x] == #[trigger] cls[y] ==> acc[x] == acc[y],
            forall|x: int, y: int| 0 <= x < n && 0 <= y < n && #[trigger] cls[x] != #[trigger] cls[y] ==> tells_apart(acc@, tgt@, kk, x, y),
            gaps_live(acc@, tgt@, nn, kk) ==> forall|x: int, y: int|
                0 <= x < n && 0 <= y < n && #[trigger] cls[x] != #[trigger] cls[y] ==> distinguishable(acc@, tgt@, kk, x, y),
            reps(cls@, nn).len() <= nn,
        decreases nn - reps(cls@, nn).len(),
    {
        let next = refine(&cls, tgt, k);
        proof {
            lemma_step_labels(cls@, next@, tgt@, nn, kk);
        }
        if same_labelling(&next, &cls) {
            proof {
                lemma_step_stable(cls@, next@, tgt@, nn, kk);
            }
            return cls;
        }
        proof {
            lemma_step_acc(cls@, next@, acc@, tgt@, nn, kk);
            lemma_step_tells(cls@, next@, acc@, tgt@, nn, kk);
            if gaps_live(acc@, tgt@, nn, kk) {
                lemma_step_dist(cls@, next@, acc@, tgt@, nn, kk);
            }
            lemma_step_grows(cls@, next@, tgt@, nn, kk);
        }
        cls = next;
    }
}

} // verus!
