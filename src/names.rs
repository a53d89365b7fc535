//! Fresh labels for new states and variables.
use vstd::prelude::*;
use crate::codec::is_plain;
use crate::collection::{contains_label, set_of};

verus! {

/// The decimal digit `d`.
pub open spec fn digit(d: nat) -> char {
    if d == 0 {
        '0'
    } else if d == 1 {
        '1'
    } else if d == 2 {
        '2'
    } else if d == 3 {
        '3'
    } else if d == 4 {
        '4'
    } else if d == 5 {
        '5'
    } else if d == 6 {
        '6'
    } else if d == 7 {
        '7'
    } else if d == 8 {
        '8'
    } else {
        '9'
    }
}

/// The decimal notation of `n`.
pub open spec fn decimal(n: nat) -> Seq<char>
    decreases n,
{
    if n < 10 {
        seq![digit(n)]
    } else {
        decimal(n / 10).push(digit(n % 10))
    }
}

proof fn lemma_decimal_plain(n: nat)
    ensures
        is_plain(decimal(n)),
        decimal(n).len() > 0,
    decreases n,
{
    if n >= 10 {
        lemma_decimal_plain(n / 10);
        let d = decimal(n / 10);
        assert forall|i: int| 0 <= i < decimal(n).len() implies decimal(n)[i] != '(' && decimal(n)[i] != ')'
            && decimal(n)[i] != ',' by {
            if i < d.len() {
                assert(decimal(n)[i] == d[i]);
            }
        }
    }
}

fn digit_string(d: usize) -> (r: String)
    requires
        d < 10,
    ensures
        r@ == seq![digit(d as nat)],
{
    proof {
        reveal_strlit("0");
        reveal_strlit("1");
        reveal_strlit("2");
        reveal_strlit("3");
        reveal_strlit("4");
        reveal_strlit("5");
        reveal_strlit("6");
        reveal_strlit("7");
        reveal_strlit("8");
        reveal_strlit("9");
    }
    let s = if d == 0 {
        "0"
    } else if d == 1 {
        "1"
    } else if d == 2 {
        "2"
    } else if d == 3 {
        "3"
    } else if d == 4 {
        "4"
    } else if d == 5 {
        "5"
    } else if d == 6 {
        "6"
    } else if d == 7 {
        "7"
    } else if d == 8 {
        "8"
    } else {
        "9"
    };
    String::from_str(s)
}

/// The decimal notation of `n`.
pub fn to_decimal(n: usize) -> (r: String)
    ensures
        r@ == decimal(n as nat),
    decreases n,
{
    if n < 10 {
        digit_string(n)
    } else {
        let mut r = to_decimal(n / 10);
        let last = digit_string(n % 10);
        r.append(last.as_str());
        proof {
            assert(r@ =~= decimal((n / 10) as nat).push(digit((n % 10) as nat)));
        }
        r
    }
}

/// `prefix`, the decimal notation of `n`, then `suffix`.
pub fn numbered(prefix: &str, n: usize, suffix: &str) -> (r: String)
    ensures
        r@ == prefix@ + decimal(n as nat) + suffix@,
{
    let mut r = String::from_str(prefix);
    let d = to_decimal(n);
    r.append(d.as_str());
    r.append(suffix);
    r
}

/// A label that is none of `taken`: the first of `q0`, `q1`, ... that is
/// free, or else `q` followed by as many `'` as the longest taken label has
/// characters.
pub fn fresh_label(taken: &Vec<String>) -> (r: String)
    ensures
        !set_of(taken@).contains(r@),
        r@.len() > 0,
        is_plain(r@),
{
    proof {
        reveal_strlit("q");
        reveal_strlit("");
        reveal_strlit("'");
    }
    let mut i: usize = 0;
    while i < 10
        decreases 10 - i,
    {
        let candidate = numbered("q", i, "");
        proof {
            reveal_strlit("q");
            reveal_strlit("");
            lemma_decimal_plain(i as nat);
            assert(candidate@ =~= seq!['q'] + decimal(i as nat));
            assert forall|x: int| 0 <= x < candidate@.len() implies candidate@[x] != '(' && candidate@[x] != ')'
                && candidate@[x] != ',' by {
                if x > 0 {
                    assert(candidate@[x] == decimal(i as nat)[x - 1]);
                }
            }
        }
        if !contains_label(taken, candidate.as_str()) {
            return candidate;
        }
        i = i + 1;
    }
    let mut longest: usize = 0;
    let mut j: usize = 0;
    while j < taken.len()
        invariant
            j <= taken.len(),
            forall|k: int| 0 <= k < j ==> (#[trigger] taken@[k])@.len() <= longest,
        decreases taken.len() - j,
    {
        let len = taken[j].as_str().unicode_len();
        if len > longest {
            longest = len;
        }
        j = j + 1;
    }
    let mut r = String::from_str("q");
    let mut k: usize = 0;
    proof {
        assert(r@ =~= seq!['q']);
    }
    while k < longest
        invariant
            k <= longest,
            r@.len() == k + 1,
            is_plain(r@),
        decreases longest - k,
    {
        proof {
            reveal_strlit("'");
        }
        let ghost before = r@;
        r.append("'");
        proof {
            assert forall|x: int| 0 <= x < r@.len() implies r@[x] != '(' && r@[x] != ')' && r@[x] != ',' by {
                if x < before.len() {
                    assert(r@[x] == before[x]);
                }
            }
        }
        k = k + 1;
    }
    proof {
        if set_of(taken@).contains(r@) {
            let m = choose|m: int| 0 <= m < crate::codec::labels(taken@).len() && crate::codec::labels(taken@)[m] == r@;
            assert(taken@[m]@.len() <= longest);
        }
    }
    r
}

proof fn lemma_decimal_len(n: nat)
    ensures
        decimal(n).len() >= 1,
        n >= 10 ==> decimal(n).len() >= 2,
    decreases n,
{
    if n >= 10 {
        lemma_decimal_len(n / 10);
    }
}

/// Different numbers have different decimal notations.
pub proof fn lemma_decimal_injective(n: nat, m: nat)
    requires
        decimal(n) == decimal(m),
    ensures
        n == m,
    decreases n,
{
    lemma_decimal_len(n);
    lemma_decimal_len(m);
    if n < 10 && m < 10 {
        assert(decimal(n)[0] == digit(n));
        assert(decimal(m)[0] == digit(m));
    } else if n >= 10 && m >= 10 {
        let a = decimal(n / 10);
        let b = decimal(m / 10);
        assert(decimal(n) == a.push(digit(n % 10)));
        assert(decimal(m) == b.push(digit(m % 10)));
        assert(a.len() == b.len());
        assert(digit(n % 10) == decimal(n)[a.len() as int]);
        assert(n % 10 == m % 10);
        assert(a =~= decimal(n).drop_last());
        assert(b =~= decimal(m).drop_last());
        lemma_decimal_injective(n / 10, m / 10);
        assert(n == (n / 10) * 10 + n % 10) by (nonlinear_arith);
        assert(m == (m / 10) * 10 + m % 10) by (nonlinear_arith);
    }
}

} // verus!
