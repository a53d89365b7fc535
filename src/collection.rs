//! Vectors of labels read as sets.
use vstd::prelude::*;
use crate::codec::labels;

verus! {

/// The set of labels held by a vector.
pub open spec fn set_of(v: Seq<String>) -> Set<Seq<char>> {
    labels(v).to_set()
}

pub proof fn lemma_set_of_index(v: Seq<String>, i: int)
    requires
        0 <= i < v.len(),
    ensures
        set_of(v).contains(v[i]@),
{
    assert(labels(v)[i] == v[i]@);
}

pub proof fn lemma_set_of_push(v: Seq<String>, x: String)
    ensures
        set_of(v.push(x)) == set_of(v).insert(x@),
{
    assert(labels(v.push(x)) =~= labels(v).push(x@));
    crate::codec::lemma_push_to_set(labels(v), x@);
}

/// Whether `x` is one of the labels in `v`.
pub fn contains_label(v: &Vec<String>, x: &str) -> (r: bool)
    ensures
        r == set_of(v@).contains(x@),
{
    let mut i: usize = 0;
    while i < v.len()
        invariant
            i <= v.len(),
            forall|k: int| 0 <= k < i ==> v@[k]@ != x@,
        decreases v.len() - i,
    {
        if crate::codec::str_eq(v[i].as_str(), x) {
            proof {
                lemma_set_of_index(v@, i as int);
            }
            return true;
        }
        i = i + 1;
    }
    proof {
        if set_of(v@).contains(x@) {
            let k = choose|k: int| 0 <= k < labels(v@).len() && labels(v@)[k] == x@;
            assert(v@[k]@ == x@);
        }
    }
    false
}

/// A copy of the labels of `v`.
pub fn copy_labels(v: &Vec<String>) -> (r: Vec<String>)
    ensures
        r@ == v@,
{
    let mut r: Vec<String> = Vec::new();
    let mut i: usize = 0;
    while i < v.len()
        invariant
            i <= v.len(),
            r@ == v@.take(i as int),
        decreases v.len() - i,
    {
        r.push(v[i].clone());
        proof {
            assert(v@.take(i + 1) =~= v@.take(i as int).push(v@[i as int]));
        }
        i = i + 1;
    }
    proof {
        assert(v@.take(i as int) =~= v@);
    }
    r
}

/// Adds `x` to `v` unless it is already there.
pub fn add_label(v: &mut Vec<String>, x: String)
    ensures
        set_of(final(v)@) == set_of(old(v)@).insert(x@),
        labels(old(v)@).no_duplicates() ==> labels(final(v)@).no_duplicates(),
{
    if !contains_label(v, x.as_str()) {
        proof {
            lemma_set_of_push(v@, x);
        }
        let ghost before = v@;
        v.push(x);
        proof {
            assert(labels(v@) =~= labels(before).push(v@[before.len() as int]@));
        }
    } else {
        proof {
            assert(set_of(v@).insert(x@) =~= set_of(v@));
        }
    }
}

/// The labels of `v` that are not in `w`.
pub fn difference(v: &Vec<String>, w: &Vec<String>) -> (r: Vec<String>)
    ensures
        set_of(r@) == set_of(v@).difference(set_of(w@)),
{
    let mut r: Vec<String> = Vec::new();
    let mut i: usize = 0;
    proof {
        assert(set_of(r@) =~= set_of(v@.take(0)).difference(set_of(w@)));
    }
    while i < v.len()
        invariant
            i <= v.len(),
            set_of(r@) == set_of(v@.take(i as int)).difference(set_of(w@)),
        decreases v.len() - i,
    {
        proof {
            assert(v@.take(i + 1) =~= v@.take(i as int).push(v@[i as int]));
            lemma_set_of_push(v@.take(i as int), v@[i as int]);
        }
        if !contains_label(w, v[i].as_str()) {
            proof {
                lemma_set_of_push(r@, v@[i as int]);
            }
            r.push(v[i].clone());
        }
        proof {
            assert(set_of(r@) =~= set_of(v@.take(i + 1)).difference(set_of(w@)));
        }
        i = i + 1;
    }
    proof {
        assert(v@.take(i as int) =~= v@);
    }
    r
}

/// A sequence of distinct labels, all drawn from `b`, is no longer than `b`.
pub proof fn lemma_distinct_bounded(a: Seq<Seq<char>>, b: Seq<Seq<char>>)
    requires
        a.no_duplicates(),
        a.to_set().subset_of(b.to_set()),
    ensures
        a.len() <= b.len(),
{
    a.unique_seq_to_set();
    b.lemma_cardinality_of_set();
    vstd::set_lib::lemma_len_subset(a.to_set(), b.to_set());
}

/// The labels of `v` that are also in `w`.
pub fn intersection(v: &Vec<String>, w: &Vec<String>) -> (r: Vec<String>)
    ensures
        set_of(r@) == set_of(v@).intersect(set_of(w@)),
{
    let mut r: Vec<String> = Vec::new();
    let mut i: usize = 0;
    proof {
        assert(set_of(r@) =~= set_of(v@.take(0)).intersect(set_of(w@)));
    }
    while i < v.len()
        invariant
            i <= v.len(),
            set_of(r@) == set_of(v@.take(i as int)).intersect(set_of(w@)),
        decreases v.len() - i,
    {
        proof {
            assert(v@.take(i + 1) =~= v@.take(i as int).push(v@[i as int]));
            lemma_set_of_push(v@.take(i as int), v@[i as int]);
        }
        if contains_label(w, v[i].as_str()) {
            proof {
                lemma_set_of_push(r@, v@[i as int]);
            }
            r.push(v[i].clone());
        }
        proof {
            assert(set_of(r@) =~= set_of(v@.take(i + 1)).intersect(set_of(w@)));
        }
        i = i + 1;
    }
    proof {
        assert(v@.take(i as int) =~= v@);
    }
    r
}

/// The labels of `v`, each once, in order of first appearance.
pub fn distinct_labels(v: &Vec<String>) -> (r: Vec<String>)
    ensures
        labels(r@).no_duplicates(),
        set_of(r@) == set_of(v@),
{
    let mut r: Vec<String> = Vec::new();
    let mut i: usize = 0;
    proof {
        assert(labels(r@) =~= Seq::<Seq<char>>::empty());
        assert(set_of(r@) =~= set_of(v@.take(0)));
    }
    while i < v.len()
        invariant
            i <= v.len(),
            labels(r@).no_duplicates(),
            set_of(r@) == set_of(v@.take(i as int)),
        decreases v.len() - i,
    {
        proof {
            assert(v@.take(i + 1) =~= v@.take(i as int).push(v@[i as int]));
            lemma_set_of_push(v@.take(i as int), v@[i as int]);
        }
        add_label(&mut r, v[i].clone());
        i = i + 1;
    }
    proof {
        assert(v@.take(i as int) =~= v@);
    }
    r
}

/// The position of `x` in `v`, if it is there.
pub fn index_of(v: &Vec<String>, x: &str) -> (r: Option<usize>)
    ensures
        match r {
            Some(i) => i < v.len() && v@[i as int]@ == x@,
            None => !set_of(v@).contains(x@),
        },
{
    let mut i: usize = 0;
    while i < v.len()
        invariant
            i <= v.len(),
            forall|k: int| 0 <= k < i ==> v@[k]@ != x@,
        decreases v.len() - i,
    {
        if crate::codec::str_eq(v[i].as_str(), x) {
            return Some(i);
        }
        i = i + 1;
    }
    proof {
        if set_of(v@).contains(x@) {
            let k = choose|k: int| 0 <= k < labels(v@).len() && labels(v@)[k] == x@;
            assert(v@[k]@ == x@);
        }
    }
    None
}

/// The labels of `v` followed by those of `w`.
pub fn concat_labels(v: &Vec<String>, w: &Vec<String>) -> (r: Vec<String>)
    ensures
        set_of(r@) == set_of(v@).union(set_of(w@)),
{
    let mut r = copy_labels(v);
    let mut i: usize = 0;
    proof {
        assert(w@.take(0) =~= Seq::<String>::empty());
        assert(set_of(r@) =~= set_of(v@).union(set_of(w@.take(0))));
    }
    while i < w.len()
        invariant
            i <= w.len(),
            set_of(r@) == set_of(v@).union(set_of(w@.take(i as int))),
        decreases w.len() - i,
    {
        proof {
            assert(w@.take(i + 1) =~= w@.take(i as int).push(w@[i as int]));
            lemma_set_of_push(w@.take(i as int), w@[i as int]);
            lemma_set_of_push(r@, w@[i as int]);
        }
        r.push(w[i].clone());
        proof {
            assert(set_of(r@) =~= set_of(v@).union(set_of(w@.take(i + 1))));
        }
        i = i + 1;
    }
    proof {
        assert(w@.take(i as int) =~= w@);
    }
    r
}

/// The labels of `v` other than `x`.
pub fn remove_label(v: &Vec<String>, x: &str) -> (r: Vec<String>)
    ensures
        set_of(r@) == set_of(v@).remove(x@),
{
    let mut r: Vec<String> = Vec::new();
    let mut i: usize = 0;
    proof {
        assert(set_of(r@) =~= set_of(v@.take(0)).remove(x@));
    }
    while i < v.len()
        invariant
            i <= v.len(),
            set_of(r@) == set_of(v@.take(i as int)).remove(x@),
        decreases v.len() - i,
    {
        proof {
            assert(v@.take(i + 1) =~= v@.take(i as int).push(v@[i as int]));
            lemma_set_of_push(v@.take(i as int), v@[i as int]);
        }
        if !crate::codec::str_eq(v[i].as_str(), x) {
            proof {
                lemma_set_of_push(r@, v@[i as int]);
            }
            r.push(v[i].clone());
        }
        proof {
            assert(set_of(r@) =~= set_of(v@.take(i + 1)).remove(x@));
        }
        i = i + 1;
    }
    proof {
        assert(v@.take(i as int) =~= v@);
    }
    r
}

} // verus!
