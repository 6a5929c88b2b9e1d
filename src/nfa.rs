//! A nondeterministic finite automaton and its simulation.
use vstd::prelude::*;

use crate::seqs::{lemma_push_contains, lemma_take_all, lemma_take_next};
use crate::setterminal::SetTerminal;
use crate::text::chars_of;
use crate::vecset;
use std::collections::{HashMap, HashSet};

verus! {

/// A transition: from a state, on a symbol, to a state.
pub type Edge = (u32, char, u32);

/// The states reached from some state of `current` by one transition on `c`.
pub open spec fn step(delta: Set<Edge>, current: Set<u32>, c: char) -> Set<u32> {
    Set::new(|t: u32| exists|s: u32| current.contains(s) && #[trigger] delta.contains((s, c, t)))
}

/// The states reached from `from` after reading all of `w`.
pub open spec fn reach(delta: Set<Edge>, from: Set<u32>, w: Seq<char>) -> Set<u32>
    decreases w.len(),
{
    if w.len() == 0 {
        from
    } else {
        step(delta, reach(delta, from, w.drop_last()), w.last())
    }
}

/// More transitions and more states to start from reach more states.
pub proof fn lemma_reach_monotone(
    d1: Set<Edge>,
    d2: Set<Edge>,
    from1: Set<u32>,
    from2: Set<u32>,
    w: Seq<char>,
)
    requires
        d1.subset_of(d2),
        from1.subset_of(from2),
    ensures
        reach(d1, from1, w).subset_of(reach(d2, from2, w)),
    decreases w.len(),
{
    if w.len() > 0 {
        lemma_reach_monotone(d1, d2, from1, from2, w.drop_last());
        let r1 = reach(d1, from1, w.drop_last());
        let r2 = reach(d2, from2, w.drop_last());
        assert forall|t: u32| #[trigger] step(d1, r1, w.last()).contains(t) implies step(
            d2,
            r2,
            w.last(),
        ).contains(t) by {
            let s = choose|s: u32| r1.contains(s) && #[trigger] d1.contains((s, w.last(), t));
            assert(r2.contains(s));
            assert(d2.contains((s, w.last(), t)));
        }
    }
}

/// Where no transition leads to the start state, no nonempty input reaches it.
pub proof fn lemma_reach_not_start(d: Set<Edge>, from: Set<u32>, w: Seq<char>)
    requires
        forall|e: Edge| #[trigger] d.contains(e) ==> e.2 != 0,
        w.len() > 0,
    ensures
        !reach(d, from, w).contains(0),
{
    let r = reach(d, from, w.drop_last());
    if step(d, r, w.last()).contains(0) {
        let s = choose|s: u32| r.contains(s) && #[trigger] d.contains((s, w.last(), 0u32));
    }
}

/// Reading `u` then `v` reaches what reading `v` reaches from where `u` led.
pub proof fn lemma_reach_append(d: Set<Edge>, from: Set<u32>, u: Seq<char>, v: Seq<char>)
    ensures
        reach(d, from, u + v) == reach(d, reach(d, from, u), v),
    decreases v.len(),
{
    if v.len() == 0 {
        assert(u + v =~= u);
    } else {
        assert((u + v).drop_last() =~= u + v.drop_last());
        assert((u + v).last() == v.last());
        lemma_reach_append(d, from, u, v.drop_last());
    }
}

/// Reading `w` from the start state `0` can end in an accepting state.
pub open spec fn accepts_in(delta: Set<Edge>, accept: Set<u32>, w: Seq<char>) -> bool {
    exists|q: u32| #[trigger] reach(delta, set![0u32], w).contains(q) && accept.contains(q)
}

/// The positions of the single elements of `s`.
pub open spec fn single_positions(s: Set<SetTerminal>) -> Set<u32> {
    Set::new(
        |p: u32|
            exists|x: SetTerminal| #[trigger]
                s.contains(x) && (x matches SetTerminal::SingleElement(_, q) && q == p),
    )
}

/// The positions that occur in the pairs of `s`.
pub open spec fn pair_positions(s: Set<SetTerminal>) -> Set<u32> {
    Set::new(
        |p: u32|
            exists|x: SetTerminal| #[trigger]
                s.contains(x) && (x matches SetTerminal::DoubleElement(_, q1, _, q2) && (q1 == p
                    || q2 == p)),
    )
}

/// The transitions out of the start state: one to each first position, on its symbol.
pub open spec fn start_edges(prefix: Set<SetTerminal>) -> Set<Edge> {
    Set::new(
        |e: Edge|
            exists|x: SetTerminal| #[trigger]
                prefix.contains(x) && (x matches SetTerminal::SingleElement(c, q) && e == (0u32, c, q)),
    )
}

/// The transitions between positions: from the first of a pair to the second,
/// on the symbol of the second.
pub open spec fn follow_edges(factors: Set<SetTerminal>) -> Set<Edge> {
    Set::new(
        |e: Edge|
            exists|x: SetTerminal| #[trigger]
                factors.contains(x) && (x matches SetTerminal::DoubleElement(_, q1, c, q2) && e == (
                    q1,
                    c,
                    q2,
                )),
    )
}

/// The states of the automaton built from the three sets: the start state and
/// every position that occurs in them.
pub open spec fn glushkov_states(
    prefix: Set<SetTerminal>,
    suffix: Set<SetTerminal>,
    factors: Set<SetTerminal>,
) -> Set<u32> {
    set![0u32] + single_positions(prefix) + single_positions(suffix) + pair_positions(factors)
}

/// The transition relation of the automaton built from the prefix and factors sets.
pub open spec fn glushkov_delta(prefix: Set<SetTerminal>, factors: Set<SetTerminal>) -> Set<Edge> {
    start_edges(prefix) + follow_edges(factors)
}

/// The sets may be handed to the builder: the prefix and suffix sets hold no
/// pair, the factors set no single element.
pub open spec fn buildable(
    prefix: Set<SetTerminal>,
    suffix: Set<SetTerminal>,
    factors: Set<SetTerminal>,
) -> bool {
    &&& forall|x: SetTerminal| #[trigger] prefix.contains(x) ==> !x.is_double()
    &&& forall|x: SetTerminal| #[trigger] suffix.contains(x) ==> !x.is_double()
    &&& forall|x: SetTerminal| #[trigger] factors.contains(x) ==> !x.is_single()
}

proof fn lemma_empty_sets()
    ensures
        single_positions(Set::empty()) == Set::<u32>::empty(),
        pair_positions(Set::empty()) == Set::<u32>::empty(),
        start_edges(Set::empty()) == Set::<Edge>::empty(),
        follow_edges(Set::empty()) == Set::<Edge>::empty(),
{
    assert(single_positions(Set::empty()) =~= Set::<u32>::empty());
    assert(pair_positions(Set::empty()) =~= Set::<u32>::empty());
    assert(start_edges(Set::empty()) =~= Set::<Edge>::empty());
    assert(follow_edges(Set::empty()) =~= Set::<Edge>::empty());
}

/// What inserting one element adds to the positions and transitions.
proof fn lemma_insert(s: Set<SetTerminal>, x: SetTerminal)
    ensures
        single_positions(s.insert(x)) == match x {
            SetTerminal::SingleElement(_, p) => single_positions(s).insert(p),
            _ => single_positions(s),
        },
        start_edges(s.insert(x)) == match x {
            SetTerminal::SingleElement(c, p) => start_edges(s).insert((0u32, c, p)),
            _ => start_edges(s),
        },
        pair_positions(s.insert(x)) == match x {
            SetTerminal::DoubleElement(_, p1, _, p2) => pair_positions(s).insert(p1).insert(p2),
            _ => pair_positions(s),
        },
        follow_edges(s.insert(x)) == match x {
            SetTerminal::DoubleElement(_, p1, c, p2) => follow_edges(s).insert((p1, c, p2)),
            _ => follow_edges(s),
        },
{
    let t = s.insert(x);
    assert(t.contains(x));
    assert forall|y: SetTerminal| s.contains(y) implies #[trigger] t.contains(y) by {}
    assert forall|q: u32| #[trigger] single_positions(s).contains(q) implies single_positions(
        t,
    ).contains(q) by {
        let y = choose|y: SetTerminal| #[trigger]
            s.contains(y) && (y matches SetTerminal::SingleElement(_, r) && r == q);
        assert(t.contains(y));
    }
    assert forall|e: Edge| #[trigger] start_edges(s).contains(e) implies start_edges(t).contains(
        e,
    ) by {
        let y = choose|y: SetTerminal| #[trigger]
            s.contains(y) && (y matches SetTerminal::SingleElement(d, r) && e == (0u32, d, r));
        assert(t.contains(y));
    }
    assert forall|q: u32| #[trigger] single_positions(t).contains(q) implies single_positions(
        s,
    ).contains(q) || (x matches SetTerminal::SingleElement(_, r) && r == q) by {
        let y = choose|y: SetTerminal| #[trigger]
            t.contains(y) && (y matches SetTerminal::SingleElement(_, r) && r == q);
        if y != x {
            assert(s.contains(y));
        }
    }
    assert forall|e: Edge| #[trigger] start_edges(t).contains(e) implies start_edges(s).contains(
        e,
    ) || (x matches SetTerminal::SingleElement(d, r) && e == (0u32, d, r)) by {
        let y = choose|y: SetTerminal| #[trigger]
            t.contains(y) && (y matches SetTerminal::SingleElement(d, r) && e == (0u32, d, r));
        if y != x {
            assert(s.contains(y));
        }
    }
    match x {
        SetTerminal::SingleElement(c, p) => {
            assert(single_positions(t).contains(p));
            assert(start_edges(t).contains((0u32, c, p)));
            assert(single_positions(t) =~= single_positions(s).insert(p));
            assert(start_edges(t) =~= start_edges(s).insert((0u32, c, p)));
        },
        _ => {
            assert(single_positions(t) =~= single_positions(s));
            assert(start_edges(t) =~= start_edges(s));
        },
    }
    lemma_insert_pair(s, x);
}

proof fn lemma_insert_pair(s: Set<SetTerminal>, x: SetTerminal)
    ensures
        pair_positions(s.insert(x)) == match x {
            SetTerminal::DoubleElement(_, p1, _, p2) => pair_positions(s).insert(p1).insert(p2),
            _ => pair_positions(s),
        },
        follow_edges(s.insert(x)) == match x {
            SetTerminal::DoubleElement(_, p1, c, p2) => follow_edges(s).insert((p1, c, p2)),
            _ => follow_edges(s),
        },
{
    let t = s.insert(x);
    assert(t.contains(x));
    assert forall|q: u32| #[trigger] pair_positions(s).contains(q) implies pair_positions(
        t,
    ).contains(q) by {
        let y = choose|y: SetTerminal| #[trigger]
            s.contains(y) && (y matches SetTerminal::DoubleElement(_, q1, _, q2) && (q1 == q
                || q2 == q));
        assert(t.contains(y));
    }
    assert forall|e: Edge| #[trigger] follow_edges(s).contains(e) implies follow_edges(t).contains(
        e,
    ) by {
        let y = choose|y: SetTerminal| #[trigger]
            s.contains(y) && (y matches SetTerminal::DoubleElement(_, q1, c, q2) && e == (
                q1,
                c,
                q2,
            ));
        assert(t.contains(y));
    }
    assert forall|q: u32| #[trigger] pair_positions(t).contains(q) implies pair_positions(
        s,
    ).contains(q) || (x matches SetTerminal::DoubleElement(_, q1, _, q2) && (q1 == q || q2
        == q)) by {
        let y = choose|y: SetTerminal| #[trigger]
            t.contains(y) && (y matches SetTerminal::DoubleElement(_, q1, _, q2) && (q1 == q
                || q2 == q));
        if y != x {
            assert(s.contains(y));
        }
    }
    assert forall|e: Edge| #[trigger] follow_edges(t).contains(e) implies follow_edges(s).contains(
        e,
    ) || (x matches SetTerminal::DoubleElement(_, q1, c, q2) && e == (q1, c, q2)) by {
        let y = choose|y: SetTerminal| #[trigger]
            t.contains(y) && (y matches SetTerminal::DoubleElement(_, q1, c, q2) && e == (
                q1,
                c,
                q2,
            ));
        if y != x {
            assert(s.contains(y));
        }
    }
    match x {
        SetTerminal::DoubleElement(_, p1, c, p2) => {
            assert(pair_positions(t).contains(p1));
            assert(pair_positions(t).contains(p2));
            assert(follow_edges(t).contains((p1, c, p2)));
            assert(pair_positions(t) =~= pair_positions(s).insert(p1).insert(p2));
            assert(follow_edges(t) =~= follow_edges(s).insert((p1, c, p2)));
        },
        _ => {
            assert(pair_positions(t) =~= pair_positions(s));
            assert(follow_edges(t) =~= follow_edges(s));
        },
    }
}

/// An automaton whose start state is `0`.
#[derive(Debug)]
pub struct NFA {
    states: HashSet<u32>,
    accept: HashSet<u32>,
    /// For each state, the symbols and target states of its transitions.
    transitions: HashMap<u32, Vec<(char, u32)>>,
}

/// The transitions listed in a map from each state to its outgoing symbols
/// and target states.
pub open spec fn edges_of(m: Map<u32, Vec<(char, u32)>>) -> Set<Edge> {
    Set::new(|e: Edge| m.contains_key(e.0) && m[e.0]@.contains((e.1, e.2)))
}

/// Adds one transition to the map.
fn add_edge(m: &mut HashMap<u32, Vec<(char, u32)>>, e: Edge)
    ensures
        edges_of(final(m)@) == edges_of(old(m)@).insert(e),
{
    let (from, symbol, to) = e;
    let mut out: Vec<(char, u32)> = match m.remove(&from) {
        Some(v) => v,
        None => Vec::new(),
    };
    let ghost before = out@;
    out.push((symbol, to));
    proof {
        lemma_push_contains(before, (symbol, to));
    }
    m.insert(from, out);
    proof {
        assert forall|x: Edge| #[trigger] edges_of(final(m)@).contains(x) == edges_of(old(m)@).insert(
            e,
        ).contains(x) by {
            if x.0 != from {
                assert(final(m)@.contains_key(x.0) == old(m)@.contains_key(x.0));
            }
        }
        assert(edges_of(final(m)@) =~= edges_of(old(m)@).insert(e));
    }
}

/// The set of the elements of `v`.
fn set_of(v: &Vec<u32>) -> (r: HashSet<u32>)
    ensures
        r@ == v@.to_set(),
{
    let mut r: HashSet<u32> = HashSet::new();
    proof {
        assert(v@.take(0).to_set() =~= Set::<u32>::empty());
    }
    let mut i: usize = 0;
    while i < v.len()
        invariant
            i <= v.len(),
            r@ == v@.take(i as int).to_set(),
        decreases v.len() - i,
    {
        r.insert(v[i]);
        proof {
            lemma_take_next(v@, i as int);
        }
        i = i + 1;
    }
    proof {
        lemma_take_all(v@);
    }
    r
}

impl Default for NFA {
    /// An automaton with no states and no transitions.
    fn default() -> (r: NFA)
        ensures
            r.states() == Set::<u32>::empty(),
            r.accept_states() == Set::<u32>::empty(),
            r.delta() == Set::<Edge>::empty(),
    {
        let r = NFA { states: HashSet::new(), accept: HashSet::new(), transitions: HashMap::new() };
        proof {
            assert(edges_of(r.transitions@) =~= Set::<Edge>::empty());
        }
        r
    }
}

impl NFA {
    /// The states of the automaton.
    pub closed spec fn states(&self) -> Set<u32> {
        self.states@
    }

    /// The accepting states.
    pub closed spec fn accept_states(&self) -> Set<u32> {
        self.accept@
    }

    /// The transition relation.
    pub closed spec fn delta(&self) -> Set<Edge> {
        edges_of(self.transitions@)
    }

    /// The automaton accepts `w`.
    pub open spec fn accepts(&self, w: Seq<char>) -> bool {
        accepts_in(self.delta(), self.accept_states(), w)
    }

    /// An automaton with the given states, accepting states and transition
    /// function; each entry maps a state and a symbol to the states it leads to.
    pub fn new(
        states: Vec<u32>,
        accept: Vec<u32>,
        transition_function: Vec<((u32, char), Vec<u32>)>,
    ) -> (r: NFA)
        ensures
            r.states() == states@.to_set(),
            r.accept_states() == accept@.to_set(),
            forall|e: Edge|
                #![trigger r.delta().contains(e)]
                r.delta().contains(e) <==> exists|i: int|
                    0 <= i < transition_function@.len() && transition_function@[i].0 == (e.0, e.1)
                        && #[trigger] transition_function@[i].1@.contains(e.2),
    {
        let mut transitions: HashMap<u32, Vec<(char, u32)>> = HashMap::new();
        proof {
            assert(edges_of(transitions@) =~= Set::<Edge>::empty());
        }
        let mut i: usize = 0;
        while i < transition_function.len()
            invariant
                i <= transition_function.len(),
                forall|e: Edge|
                    #![trigger edges_of(transitions@).contains(e)]
                    edges_of(transitions@).contains(e) <==> exists|k: int|
                        0 <= k < i && transition_function@[k].0 == (e.0, e.1)
                            && #[trigger] transition_function@[k].1@.contains(e.2),
            decreases transition_function.len() - i,
        {
            let key = transition_function[i].0;
            let targets = &transition_function[i].1;
            let mut j: usize = 0;
            while j < targets.len()
                invariant
                    i < transition_function.len(),
                    targets == &transition_function@[i as int].1,
                    key == transition_function@[i as int].0,
                    j <= targets.len(),
                    forall|e: Edge|
                        #![trigger edges_of(transitions@).contains(e)]
                        edges_of(transitions@).contains(e) <==> (exists|k: int|
                            0 <= k < i && transition_function@[k].0 == (e.0, e.1)
                                && #[trigger] transition_function@[k].1@.contains(e.2)) || (key
                            == (e.0, e.1) && targets@.take(j as int).contains(e.2)),
                decreases targets.len() - j,
            {
                add_edge(&mut transitions, (key.0, key.1, targets[j]));
                proof {
                    lemma_take_next(targets@, j as int);
                }
                j = j + 1;
            }
            proof {
                lemma_take_all(targets@);
                assert forall|e: Edge| #[trigger] edges_of(transitions@).contains(e) <==> exists|k: int|
                    0 <= k < i + 1 && transition_function@[k].0 == (e.0, e.1)
                        && #[trigger] transition_function@[k].1@.contains(e.2) by {
                    if key == (e.0, e.1) && targets@.contains(e.2) {
                        assert(transition_function@[i as int].1@.contains(e.2));
                    }
                }
            }
            i = i + 1;
        }
        NFA { states: set_of(&states), accept: set_of(&accept), transitions }
    }

    /// Builds the automaton of Glushkov's construction from the prefix, suffix
    /// and factors sets of a tree: each first position is entered from the
    /// start state on its symbol, each last position accepts, and each pair
    /// leads from its first position to its second on the second's symbol.
    pub fn set_to_nfa(
        prefix_set: &Vec<SetTerminal>,
        suffix_set: &Vec<SetTerminal>,
        factors_set: &Vec<SetTerminal>,
    ) -> (r: NFA)
        requires
            buildable(prefix_set@.to_set(), suffix_set@.to_set(), factors_set@.to_set()),
        ensures
            r.states() == glushkov_states(
                prefix_set@.to_set(),
                suffix_set@.to_set(),
                factors_set@.to_set(),
            ),
            r.accept_states() == single_positions(suffix_set@.to_set()),
            r.delta() == glushkov_delta(prefix_set@.to_set(), factors_set@.to_set()),
    {
        let mut states: HashSet<u32> = HashSet::new();
        let mut accept: HashSet<u32> = HashSet::new();
        let mut transitions: HashMap<u32, Vec<(char, u32)>> = HashMap::new();
        states.insert(0);
        proof {
            lemma_empty_sets();
            assert(prefix_set@.take(0).to_set() =~= Set::empty());
            assert(suffix_set@.take(0).to_set() =~= Set::empty());
            assert(factors_set@.take(0).to_set() =~= Set::empty());
            assert(states@ =~= set![0u32]);
            assert(edges_of(transitions@) =~= start_edges(prefix_set@.take(0).to_set()));
            assert(states@ =~= set![0u32] + single_positions(prefix_set@.take(0).to_set()));
        }
        let mut i: usize = 0;
        while i < prefix_set.len()
            invariant
                i <= prefix_set.len(),
                buildable(prefix_set@.to_set(), suffix_set@.to_set(), factors_set@.to_set()),
                accept@ == Set::<u32>::empty(),
                states@ == set![0u32] + single_positions(prefix_set@.take(i as int).to_set()),
                edges_of(transitions@) == start_edges(prefix_set@.take(i as int).to_set()),
            decreases prefix_set.len() - i,
        {
            let ghost before_states = prefix_set@.take(i as int).to_set();
            proof {
                lemma_take_next(prefix_set@, i as int);
                assert(prefix_set@.to_set().contains(prefix_set@[i as int]));
            }
            match prefix_set[i] {
                SetTerminal::SingleElement(symbol, index) => {
                    states.insert(index);
                    add_edge(&mut transitions, (0, symbol, index));
                    proof {
                        lemma_insert(before_states, prefix_set@[i as int]);
                        assert(states@ =~= set![0u32] + single_positions(
                            prefix_set@.take(i + 1).to_set(),
                        ));
                        assert(edges_of(transitions@) =~= start_edges(prefix_set@.take(i + 1).to_set()));
                    }
                },
                _ => {
                    proof {
                        lemma_insert(before_states, prefix_set@[i as int]);
                        assert(states@ =~= set![0u32] + single_positions(
                            prefix_set@.take(i + 1).to_set(),
                        ));
                        assert(edges_of(transitions@) =~= start_edges(prefix_set@.take(i + 1).to_set()));
                    }
                },
            }
            i = i + 1;
        }
        proof {
            lemma_take_all(prefix_set@);
            assert(accept@ =~= single_positions(suffix_set@.take(0).to_set()));
            assert(states@ =~= set![0u32] + single_positions(prefix_set@.to_set())
                + single_positions(suffix_set@.take(0).to_set()));
        }
        let mut i: usize = 0;
        while i < suffix_set.len()
            invariant
                i <= suffix_set.len(),
                buildable(prefix_set@.to_set(), suffix_set@.to_set(), factors_set@.to_set()),
                states@ == set![0u32] + single_positions(prefix_set@.to_set())
                    + single_positions(suffix_set@.take(i as int).to_set()),
                accept@ == single_positions(suffix_set@.take(i as int).to_set()),
                edges_of(transitions@) == start_edges(prefix_set@.to_set()),
            decreases suffix_set.len() - i,
        {
            proof {
                lemma_take_next(suffix_set@, i as int);
                assert(suffix_set@.to_set().contains(suffix_set@[i as int]));
            }
            match suffix_set[i] {
                SetTerminal::SingleElement(symbol, index) => {
                    states.insert(index);
                    accept.insert(index);
                    proof {
                        lemma_insert(suffix_set@.take(i as int).to_set(), suffix_set@[i as int]);
                    }
                },
                _ => {
                    proof {
                        lemma_insert(suffix_set@.take(i as int).to_set(), suffix_set@[i as int]);
                    }
                },
            }
            proof {
                assert(states@ =~= set![0u32] + single_positions(prefix_set@.to_set())
                    + single_positions(suffix_set@.take(i + 1).to_set()));
                assert(accept@ =~= single_positions(suffix_set@.take(i + 1).to_set()));
            }
            i = i + 1;
        }
        proof {
            lemma_take_all(suffix_set@);
            assert(edges_of(transitions@) =~= glushkov_delta(
                prefix_set@.to_set(),
                factors_set@.take(0).to_set(),
            ));
            assert(states@ =~= glushkov_states(
                prefix_set@.to_set(),
                suffix_set@.to_set(),
                factors_set@.take(0).to_set(),
            ));
        }
        let mut i: usize = 0;
        while i < factors_set.len()
            invariant
                i <= factors_set.len(),
                buildable(prefix_set@.to_set(), suffix_set@.to_set(), factors_set@.to_set()),
                states@ == glushkov_states(
                    prefix_set@.to_set(),
                    suffix_set@.to_set(),
                    factors_set@.take(i as int).to_set(),
                ),
                accept@ == single_positions(suffix_set@.to_set()),
                edges_of(transitions@) == glushkov_delta(
                    prefix_set@.to_set(),
                    factors_set@.take(i as int).to_set(),
                ),
            decreases factors_set.len() - i,
        {
            proof {
                lemma_take_next(factors_set@, i as int);
                assert(factors_set@.to_set().contains(factors_set@[i as int]));
            }
            match factors_set[i] {
                SetTerminal::DoubleElement(symbol1, index1, symbol2, index2) => {
                    states.insert(index1);
                    states.insert(index2);
                    add_edge(&mut transitions, (index1, symbol2, index2));
                    proof {
                        lemma_insert(factors_set@.take(i as int).to_set(), factors_set@[i as int]);
                        let f = factors_set@.take(i + 1).to_set();
                        assert(f.contains(SetTerminal::DoubleElement(symbol1, index1, symbol2, index2)));
                        assert(pair_positions(f).contains(index1));
                        assert(pair_positions(f).contains(index2));
                        assert(states@ =~= glushkov_states(
                            prefix_set@.to_set(),
                            suffix_set@.to_set(),
                            f,
                        ));
                        assert(follow_edges(f).contains((index1, symbol2, index2)));
                        assert(edges_of(transitions@) =~= glushkov_delta(prefix_set@.to_set(), f));
                    }
                },
                _ => {
                    proof {
                        lemma_insert(factors_set@.take(i as int).to_set(), factors_set@[i as int]);
                        let f = factors_set@.take(i + 1).to_set();
                        assert(states@ =~= glushkov_states(
                            prefix_set@.to_set(),
                            suffix_set@.to_set(),
                            f,
                        ));
                        assert(edges_of(transitions@) =~= glushkov_delta(prefix_set@.to_set(), f));
                    }
                },
            }
            i = i + 1;
        }
        proof {
            lemma_take_all(factors_set@);
        }
        NFA { states, accept, transitions }
    }
    /// Makes the start state accepting, so that the empty input is accepted.
    pub(crate) fn accept_start(&mut self)
        ensures
            final(self).states() == old(self).states(),
            final(self).accept_states() == old(self).accept_states().insert(0),
            final(self).delta() == old(self).delta(),
    {
        self.accept.insert(0);
    }

    /// The states reached from some state of `current` by one transition on
    /// `c`: only the transitions of the live states are looked at.
    fn step_states(&self, current: &Vec<u32>, c: char) -> (r: Vec<u32>)
        ensures
            r@.to_set() == step(self.delta(), current@.to_set(), c),
    {
        let ghost d = self.delta();
        let mut next: Vec<u32> = Vec::new();
        proof {
            assert(current@.take(0).to_set() =~= Set::<u32>::empty());
            assert(next@.to_set() =~= step(d, current@.take(0).to_set(), c));
        }
        let mut i: usize = 0;
        while i < current.len()
            invariant
                i <= current.len(),
                d == self.delta(),
                next@.to_set() == step(d, current@.take(i as int).to_set(), c),
            decreases current.len() - i,
        {
            let from = current[i];
            let ghost before = next@.to_set();
            let ghost live = current@.take(i as int).to_set();
            proof {
                lemma_take_next(current@, i as int);
            }
            match self.transitions.get(&from) {
                Some(out) => {
                    let mut j: usize = 0;
                    proof {
                        assert(out@.take(0) =~= Seq::<(char, u32)>::empty());
                        assert(next@.to_set() =~= before + Set::new(
                            |t: u32| out@.take(0).contains((c, t)),
                        ));
                    }
                    while j < out.len()
                        invariant
                            j <= out.len(),
                            next@.to_set() == before + Set::new(
                                |t: u32| out@.take(j as int).contains((c, t)),
                            ),
                        decreases out.len() - j,
                    {
                        let (symbol, to) = out[j];
                        if symbol == c {
                            vecset::insert(&mut next, to);
                        }
                        proof {
                            lemma_take_next(out@, j as int);
                            assert(next@.to_set() =~= before + Set::new(
                                |t: u32| out@.take(j + 1).contains((c, t)),
                            ));
                        }
                        j = j + 1;
                    }
                    proof {
                        lemma_take_all(out@);
                        assert(self.transitions@.contains_key(from));
                        assert(self.transitions@[from] == *out);
                        assert forall|t: u32| #[trigger] step(d, live.insert(from), c).contains(t)
                            implies next@.to_set().contains(t) by {
                            let s = choose|s: u32| live.insert(from).contains(s) && #[trigger] d.contains((s, c, t));
                            if s != from {
                                assert(step(d, live, c).contains(t));
                            }
                        }
                        assert forall|t: u32| #[trigger] next@.to_set().contains(t)
                            implies step(d, live.insert(from), c).contains(t) by {
                            if !before.contains(t) {
                                assert(d.contains((from, c, t)));
                            } else {
                                let s = choose|s: u32| live.contains(s) && #[trigger] d.contains((s, c, t));
                                assert(live.insert(from).contains(s));
                            }
                        }
                        assert(next@.to_set() =~= step(d, live.insert(from), c));
                    }
                },
                None => {
                    proof {
                        assert(!self.transitions@.contains_key(from));
                        assert forall|t: u32| #[trigger] step(d, live.insert(from), c).contains(t)
                            implies step(d, live, c).contains(t) by {
                            let s = choose|s: u32| live.insert(from).contains(s) && #[trigger] d.contains((s, c, t));
                            assert(s != from);
                        }
                        assert forall|t: u32| #[trigger] step(d, live, c).contains(t)
                            implies step(d, live.insert(from), c).contains(t) by {
                            let s = choose|s: u32| live.contains(s) && #[trigger] d.contains((s, c, t));
                            assert(live.insert(from).contains(s));
                        }
                        assert(next@.to_set() =~= step(d, live.insert(from), c));
                    }
                },
            }
            i = i + 1;
        }
        proof {
            lemma_take_all(current@);
        }
        next
    }

    /// Runs the automaton on `input`: starting from the start state, each
    /// symbol takes every live state along every transition on that symbol;
    /// the input is accepted when an accepting state is live at the end.
    pub fn simulate(&self, input: &str) -> (r: bool)
        ensures
            r == self.accepts(input@),
    {
        let chars = chars_of(input);
        let mut current_states: Vec<u32> = Vec::new();
        current_states.push(0);
        proof {
            assert(current_states@ == Seq::<u32>::empty().push(0u32));
            Seq::<u32>::empty().lemma_push_to_set_commute(0u32);
            assert(Seq::<u32>::empty().to_set() =~= Set::<u32>::empty());
            assert(current_states@.to_set() =~= set![0u32]);
            assert(chars@.take(0) =~= Seq::<char>::empty());
        }
        let mut i: usize = 0;
        while i < chars.len()
            invariant
                i <= chars.len(),
                current_states@.to_set() == reach(self.delta(), set![0u32], chars@.take(i as int)),
            decreases chars.len() - i,
        {
            current_states = self.step_states(&current_states, chars[i]);
            proof {
                let w = chars@.take(i + 1);
                assert(w.drop_last() == chars@.take(i as int));
                assert(w.last() == chars@[i as int]);
            }
            i = i + 1;
        }
        proof {
            lemma_take_all(chars@);
            assert(chars@ == input@);
        }
        let mut k: usize = 0;
        while k < current_states.len()
            invariant
                k <= current_states.len(),
                current_states@.to_set() == reach(self.delta(), set![0u32], input@),
                forall|j: int| 0 <= j < k ==> !self.accept@.contains(#[trigger] current_states@[j]),
            decreases current_states.len() - k,
        {
            if self.accept.contains(&current_states[k]) {
                proof {
                    let q = current_states@[k as int];
                    assert(current_states@.to_set().contains(q));
                    assert(self.accept_states().contains(q));
                    assert(reach(self.delta(), set![0u32], input@).contains(q));
                }
                return true;
            }
            k = k + 1;
        }
        proof {
            assert forall|q: u32| #[trigger] reach(self.delta(), set![0u32], input@).contains(q)
                implies !self.accept_states().contains(q) by {
                let j = choose|j: int| 0 <= j < current_states@.len() && current_states@[j] == q;
            }
        }
        false
    }
}

} // verus!
