//! Facts about sequences that the loops of this crate rely on.
use vstd::prelude::*;

verus! {

/// An element of `s.push(a)` is `a` or an element of `s`.
pub proof fn lemma_push_contains<A>(s: Seq<A>, a: A)
    ensures
        forall|x: A| #[trigger] s.push(a).contains(x) <==> (s.contains(x) || x == a),
{
    s.lemma_push_to_set_commute(a);
    assert forall|x: A| #[trigger] s.push(a).contains(x) <==> (s.contains(x) || x == a) by {
        assert(s.push(a).to_set().contains(x) == s.push(a).contains(x));
        assert(s.to_set().contains(x) == s.contains(x));
    }
}

/// Taking one more element of `s` adds `s[i]`.
pub proof fn lemma_take_next<A>(s: Seq<A>, i: int)
    requires
        0 <= i < s.len(),
    ensures
        s.take(i + 1) == s.take(i).push(s[i]),
        forall|x: A| #[trigger] s.take(i + 1).contains(x) <==> (s.take(i).contains(x) || x == s[i]),
        s.take(i + 1).to_set() == s.take(i).to_set().insert(s[i]),
{
    assert(s.take(i + 1) == s.take(i).push(s[i]));
    lemma_push_contains(s.take(i), s[i]);
    s.take(i).lemma_push_to_set_commute(s[i]);
}

/// Taking every element of `s` gives `s`.
pub proof fn lemma_take_all<A>(s: Seq<A>)
    ensures
        s.take(s.len() as int) == s,
{
    assert(s.take(s.len() as int) == s);
}

} // verus!
