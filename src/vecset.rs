//! Finite sets held as vectors, without repetition where a caller needs it.
use vstd::prelude::*;

use vstd::laws_eq::obeys_concrete_eq;

use crate::seqs::{lemma_take_all, lemma_take_next};

verus! {

/// A vector stands for the set of its elements when it repeats none.
pub open spec fn is_set<T>(v: Seq<T>) -> bool {
    v.no_duplicates()
}

/// Whether `x` occurs in `v`.
pub(crate) fn contains<T: PartialEq>(v: &Vec<T>, x: &T) -> (r: bool)
    requires
        obeys_concrete_eq::<T>(),
    ensures
        r == v@.contains(*x),
{
    proof {
        reveal(obeys_concrete_eq);
    }
    let mut i: usize = 0;
    while i < v.len()
        invariant
            obeys_concrete_eq::<T>(),
            i <= v.len(),
            forall|j: int| 0 <= j < i ==> v@[j] != *x,
        decreases v.len() - i,
    {
        proof {
            reveal(obeys_concrete_eq);
        }
        if v[i] == *x {
            return true;
        }
        i = i + 1;
    }
    false
}

/// Adds `x` unless it is already there.
pub(crate) fn insert<T: PartialEq>(v: &mut Vec<T>, x: T)
    requires
        obeys_concrete_eq::<T>(),
    ensures
        is_set(old(v)@) ==> is_set(final(v)@),
        final(v)@.to_set() == old(v)@.to_set().insert(x),
{
    if !contains(v, &x) {
        let ghost y = x;
        v.push(x);
        proof {
            assert(final(v)@ == old(v)@.push(y));
            old(v)@.lemma_push_to_set_commute(y);
        }
    }
    proof {
        assert(final(v)@.to_set() =~= old(v)@.to_set().insert(x));
    }
}

/// Adds every element of `w`.
pub(crate) fn extend<T: PartialEq + Copy>(v: &mut Vec<T>, w: &Vec<T>)
    requires
        obeys_concrete_eq::<T>(),
        is_set(old(v)@),
    ensures
        is_set(final(v)@),
        final(v)@.to_set() == old(v)@.to_set() + w@.to_set(),
{
    let mut i: usize = 0;
    while i < w.len()
        invariant
            obeys_concrete_eq::<T>(),
            i <= w.len(),
            is_set(v@),
            v@.to_set() == old(v)@.to_set() + w@.take(i as int).to_set(),
        decreases w.len() - i,
    {
        insert(v, w[i]);
        proof {
            lemma_take_next(w@, i as int);
            assert(v@.to_set() =~= old(v)@.to_set() + w@.take(i + 1).to_set());
        }
        i = i + 1;
    }
    proof {
        lemma_take_all(w@);
    }
}

/// Removes `x` where it occurs.
pub(crate) fn remove<T: PartialEq + Copy>(v: &mut Vec<T>, x: &T)
    requires
        obeys_concrete_eq::<T>(),
        is_set(old(v)@),
    ensures
        is_set(final(v)@),
        final(v)@.to_set() == old(v)@.to_set().remove(*x),
{
    proof {
        reveal(obeys_concrete_eq);
    }
    let mut out: Vec<T> = Vec::new();
    let mut i: usize = 0;
    while i < v.len()
        invariant
            obeys_concrete_eq::<T>(),
            i <= v.len(),
            is_set(out@),
            out@.to_set() == v@.take(i as int).to_set().remove(*x),
        decreases v.len() - i,
    {
        proof {
            reveal(obeys_concrete_eq);
        }
        if !(v[i] == *x) {
            insert(&mut out, v[i]);
        }
        proof {
            lemma_take_next(v@, i as int);
            assert(out@.to_set() =~= v@.take(i + 1).to_set().remove(*x));
        }
        i = i + 1;
    }
    proof {
        lemma_take_all(v@);
    }
    *v = out;
}

} // verus!
