//! Properties of compiled automata that relate several calls.
use vstd::prelude::*;

use crate::nfa::{
    follow_edges, lemma_reach_append, lemma_reach_monotone, reach, start_edges, step, NFA,
};
use crate::node::{
    cross, drop_empty, factors, lemma_prefix_suffix_single, lemma_sets_nonzero,
    nullability, nullable, prefix, suffix, Node,
};
use crate::operator::Operator;
use crate::setterminal::SetTerminal;
use crate::linearize::{
    build, close_group, flush, infix_spec, lemma_parse_closure, lemma_parse_numbered, literal_count,
    parse, postfix_spec, shunt, tree_of, ParseError,
};
use crate::node::matches_empty;
use crate::nfa::{lemma_reach_not_start, single_positions, Edge};
use crate::{compiled_from, tree_accept, tree_accepts, tree_delta};

verus! {

/// Compiling the same pattern twice gives automata that accept exactly the
/// same strings.
pub proof fn lemma_compile_deterministic(p: Seq<char>, n1: NFA, n2: NFA, w: Seq<char>)
    requires
        compiled_from(n1, p),
        compiled_from(n2, p),
    ensures
        n1.accepts(w) == n2.accepts(w),
{
}

proof fn lemma_follow_union(a: Set<SetTerminal>, b: Set<SetTerminal>)
    ensures
        follow_edges(a + b) == follow_edges(a) + follow_edges(b),
{
    assert forall|e| #[trigger] follow_edges(a + b).contains(e) implies (follow_edges(a) + follow_edges(b)).contains(e) by {
        let x = choose|x: SetTerminal| #[trigger]
            (a + b).contains(x) && (x matches SetTerminal::DoubleElement(_, q1, c, q2) && e == (q1, c, q2));
        if a.contains(x) {
            assert(follow_edges(a).contains(e));
        } else {
            assert(follow_edges(b).contains(e));
        }
    }
    assert forall|e| #[trigger] follow_edges(a).contains(e) implies follow_edges(a + b).contains(e) by {
        let x = choose|x: SetTerminal| #[trigger]
            a.contains(x) && (x matches SetTerminal::DoubleElement(_, q1, c, q2) && e == (q1, c, q2));
        assert((a + b).contains(x));
    }
    assert forall|e| #[trigger] follow_edges(b).contains(e) implies follow_edges(a + b).contains(e) by {
        let x = choose|x: SetTerminal| #[trigger]
            b.contains(x) && (x matches SetTerminal::DoubleElement(_, q1, c, q2) && e == (q1, c, q2));
        assert((a + b).contains(x));
    }
    assert(follow_edges(a + b) =~= follow_edges(a) + follow_edges(b));
}

proof fn lemma_follow_drop_empty(a: Set<SetTerminal>)
    ensures
        follow_edges(drop_empty(a)) == follow_edges(a),
{
    assert forall|e| #[trigger] follow_edges(a).contains(e) implies follow_edges(drop_empty(a)).contains(e) by {
        let x = choose|x: SetTerminal| #[trigger]
            a.contains(x) && (x matches SetTerminal::DoubleElement(_, q1, c, q2) && e == (q1, c, q2));
        assert(drop_empty(a).contains(x));
    }
    assert forall|e| #[trigger] follow_edges(drop_empty(a)).contains(e) implies follow_edges(a).contains(e) by {
        let x = choose|x: SetTerminal| #[trigger]
            drop_empty(a).contains(x) && (x matches SetTerminal::DoubleElement(_, q1, c, q2) && e == (q1, c, q2));
        assert(a.contains(x));
    }
    assert(follow_edges(drop_empty(a)) =~= follow_edges(a));
}

proof fn lemma_cross_union(a: Set<SetTerminal>, b: Set<SetTerminal>, c: Set<SetTerminal>)
    ensures
        cross(a + b, c) == cross(a, c) + cross(b, c),
        cross(c, a + b) == cross(c, a) + cross(c, b),
{
    assert(cross(a + b, c) =~= cross(a, c) + cross(b, c));
    assert(cross(c, a + b) =~= cross(c, a) + cross(c, b));
}

/// Concatenation is associative in the language accepted, where the three
/// operands agree on whether they can match the empty string: the automata
/// built from `l.(m.r)` and `(l.m).r` have the same transitions and the same
/// accepting states, and so accept the same strings.
pub proof fn lemma_concat_assoc(l: Node, m: Node, r: Node, w: Seq<char>)
    requires
        nullable(l) == nullable(m),
        nullable(m) == nullable(r),
    ensures
        ({
            let right = Node::Operation(
                Operator::Concat,
                Box::new(l),
                Some(Box::new(Node::Operation(Operator::Concat, Box::new(m), Some(Box::new(r))))),
            );
            let left = Node::Operation(
                Operator::Concat,
                Box::new(Node::Operation(Operator::Concat, Box::new(l), Some(Box::new(m)))),
                Some(Box::new(r)),
            );
            &&& tree_delta(right) == tree_delta(left)
            &&& tree_accept(right) == tree_accept(left)
            &&& tree_accepts(right, w) == tree_accepts(left, w)
        }),
{
    let mr = Node::Operation(Operator::Concat, Box::new(m), Some(Box::new(r)));
    let lm = Node::Operation(Operator::Concat, Box::new(l), Some(Box::new(m)));
    let right = Node::Operation(Operator::Concat, Box::new(l), Some(Box::new(mr)));
    let left = Node::Operation(Operator::Concat, Box::new(lm), Some(Box::new(r)));
    assert(nullability(mr) == nullability(m) + nullability(r));
    assert(nullability(lm) == nullability(l) + nullability(m));
    assert(nullable(mr) == (nullable(m) || nullable(r)));
    assert(nullable(lm) == (nullable(l) || nullable(m)));
    assert(prefix(mr) == if nullable(m) { prefix(m) + prefix(r) } else { prefix(m) });
    assert(prefix(lm) == if nullable(l) { prefix(l) + prefix(m) } else { prefix(l) });
    assert(prefix(right) == if nullable(l) { prefix(l) + prefix(mr) } else { prefix(l) });
    assert(prefix(left) == if nullable(lm) { prefix(lm) + prefix(r) } else { prefix(lm) });
    assert(prefix(right) =~= prefix(left));
    assert(suffix(mr) == if nullable(r) { suffix(r) + suffix(m) } else { suffix(r) });
    assert(suffix(lm) == if nullable(m) { suffix(m) + suffix(l) } else { suffix(m) });
    assert(suffix(right) == if nullable(mr) { suffix(mr) + suffix(l) } else { suffix(mr) });
    assert(suffix(left) == if nullable(r) { suffix(r) + suffix(lm) } else { suffix(r) });
    assert(suffix(right) =~= suffix(left));
    assert(matches_empty(mr) == (matches_empty(m) && matches_empty(r)));
    assert(matches_empty(lm) == (matches_empty(l) && matches_empty(m)));
    assert(matches_empty(right) == (matches_empty(l) && matches_empty(mr)));
    assert(matches_empty(left) == (matches_empty(lm) && matches_empty(r)));
    let (fl, fm, fr) = (factors(l), factors(m), factors(r));
    let (pl, pm, pr) = (prefix(l), prefix(m), prefix(r));
    let (sl, sm, sr) = (suffix(l), suffix(m), suffix(r));
    // The transitions between positions of both trees are those of the three
    // operands and of the three junctions.
    lemma_follow_drop_empty(fm + fr + cross(sm, pr));
    lemma_follow_drop_empty(fl + factors(mr) + cross(sl, prefix(mr)));
    lemma_follow_drop_empty(fl + fm + cross(sl, pm));
    lemma_follow_drop_empty(factors(lm) + fr + cross(suffix(lm), pr));
    lemma_follow_union(fm + fr, cross(sm, pr));
    lemma_follow_union(fm, fr);
    lemma_follow_union(fl + factors(mr), cross(sl, prefix(mr)));
    lemma_follow_union(fl, factors(mr));
    lemma_follow_union(fl + fm, cross(sl, pm));
    lemma_follow_union(fl, fm);
    lemma_follow_union(factors(lm) + fr, cross(suffix(lm), pr));
    lemma_follow_union(factors(lm), fr);
    lemma_cross_union(pm, pr, sl);
    lemma_cross_union(sm, sl, pr);
    if nullable(m) {
        lemma_follow_union(cross(sl, pm), cross(sl, pr));
        lemma_follow_union(cross(sm, pr), cross(sl, pr));
    }
    assert(follow_edges(factors(right)) =~= follow_edges(factors(left)));
    assert(tree_delta(right) =~= tree_delta(left));
}

/// `w` written `k` times in a row.
pub open spec fn repeat(w: Seq<char>, k: nat) -> Seq<char>
    decreases k,
{
    if k == 0 {
        Seq::empty()
    } else {
        repeat(w, (k - 1) as nat) + w
    }
}

/// The closure of a tree.
pub open spec fn star(t: Node) -> Node {
    Node::Operation(Operator::Production, Box::new(t), None)
}

/// The closure keeps the tree's transitions and last positions, matches the
/// empty string, and leads from every last position to every first one.
proof fn lemma_star_extends(t: Node)
    ensures
        tree_delta(t).subset_of(tree_delta(star(t))),
        suffix(star(t)) == suffix(t),
        matches_empty(star(t)),
        star(t).positions_nonzero() == t.positions_nonzero(),
        follow_edges(cross(suffix(t), prefix(t))).subset_of(tree_delta(star(t))),
{
    lemma_follow_drop_empty(factors(t) + cross(suffix(t), prefix(t)));
    lemma_follow_union(factors(t), cross(suffix(t), prefix(t)));
    assert(star(t).positions() =~= t.positions());
}

/// No transition of a tree's automaton leads to the start state.
proof fn lemma_no_edge_to_start(t: Node)
    requires
        t.positions_nonzero(),
    ensures
        forall|e: Edge| #[trigger] tree_delta(t).contains(e) ==> e.2 != 0,
{
    lemma_sets_nonzero(t);
    assert forall|e: Edge| #[trigger] tree_delta(t).contains(e) implies e.2 != 0 by {
        if start_edges(prefix(t)).contains(e) {
            let x = choose|x: SetTerminal| #[trigger]
                prefix(t).contains(x) && (x matches SetTerminal::SingleElement(c, q) && e == (
                    0u32,
                    c,
                    q,
                ));
        } else {
            let x = choose|x: SetTerminal| #[trigger]
                factors(t).contains(x) && (x matches SetTerminal::DoubleElement(_, q1, c, q2)
                    && e == (q1, c, q2));
        }
    }
}

/// An accepting state reached by a nonempty input is a last position.
proof fn lemma_accepted_at_last(t: Node, w: Seq<char>, q: u32)
    requires
        t.positions_nonzero(),
        w.len() > 0,
        reach(tree_delta(t), set![0u32], w).contains(q),
        tree_accept(t).contains(q),
    ensures
        single_positions(suffix(t)).contains(q),
{
    lemma_no_edge_to_start(t);
    lemma_reach_not_start(tree_delta(t), set![0u32], w);
}

/// From any last position the closure can read a nonempty string that the
/// tree accepts, and end where the tree's own run ended.
proof fn lemma_restart(t: Node, w: Seq<char>, q: u32, last: u32)
    requires
        t.positions_nonzero(),
        w.len() > 0,
        reach(tree_delta(t), set![0u32], w).contains(q),
        single_positions(suffix(t)).contains(last),
    ensures
        reach(tree_delta(star(t)), set![last], w).contains(q),
{
    let d = tree_delta(t);
    let ds = tree_delta(star(t));
    let c = w[0];
    let rest = w.drop_first();
    lemma_star_extends(t);
    lemma_sets_nonzero(t);
    lemma_prefix_suffix_single(t);
    assert(w == seq![c] + rest);
    lemma_reach_append(d, set![0u32], seq![c], rest);
    lemma_reach_append(ds, set![last], seq![c], rest);
    assert(seq![c].drop_last() =~= Seq::<char>::empty());
    assert(seq![c].last() == c);
    assert(reach(d, set![0u32], Seq::<char>::empty()) == set![0u32]);
    assert(reach(ds, set![last], Seq::<char>::empty()) == set![last]);
    assert(reach(d, set![0u32], seq![c]) == step(d, set![0u32], c));
    assert(reach(ds, set![last], seq![c]) == step(ds, set![last], c));
    let y = choose|y: SetTerminal| #[trigger]
        suffix(t).contains(y) && (y matches SetTerminal::SingleElement(_, p) && p == last);
    assert forall|p: u32| #[trigger] step(d, set![0u32], c).contains(p) implies step(
        ds,
        set![last],
        c,
    ).contains(p) by {
        assert(d.contains((0u32, c, p)));
        if follow_edges(factors(t)).contains((0u32, c, p)) {
            let x = choose|x: SetTerminal| #[trigger]
                factors(t).contains(x) && (x matches SetTerminal::DoubleElement(_, q1, e, q2) && (
                    0u32,
                    c,
                    p,
                ) == (q1, e, q2));
            assert(false);
        }
        assert(start_edges(prefix(t)).contains((0u32, c, p)));
        let x = choose|x: SetTerminal| #[trigger]
            prefix(t).contains(x) && (x matches SetTerminal::SingleElement(e, r) && (0u32, c, p)
                == (0u32, e, r));
        assert(cross(suffix(t), prefix(t)).contains(
            crate::setterminal::product_spec(y, x),
        ));
        assert(follow_edges(cross(suffix(t), prefix(t))).contains((last, c, p)));
        assert(ds.contains((last, c, p)));
    }
    lemma_reach_monotone(d, ds, step(d, set![0u32], c), step(ds, set![last], c), rest);
}

/// The closure of a tree accepts the empty string.
pub proof fn lemma_closure_accepts_empty(t: Node)
    ensures
        tree_accepts(star(t), Seq::empty()),
{
    lemma_star_extends(t);
    assert(reach(tree_delta(star(t)), set![0u32], Seq::empty()).contains(0u32));
    assert(tree_accept(star(t)).contains(0u32));
}

/// The closure of a tree accepts every nonempty string that the tree accepts,
/// repeated any positive number of times.
pub proof fn lemma_closure_repeats(t: Node, w: Seq<char>, k: nat)
    requires
        t.positions_nonzero(),
        w.len() > 0,
        tree_accepts(t, w),
        k >= 1,
    ensures
        tree_accepts(star(t), repeat(w, k)),
    decreases k,
{
    let d = tree_delta(t);
    let ds = tree_delta(star(t));
    lemma_star_extends(t);
    let q = choose|q: u32| #[trigger] reach(d, set![0u32], w).contains(q) && tree_accept(t).contains(q);
    lemma_accepted_at_last(t, w, q);
    assert(tree_accept(star(t)).contains(q));
    if k == 1 {
        assert(repeat(w, 0) + w =~= w);
        lemma_reach_monotone(d, ds, set![0u32], set![0u32], w);
        assert(reach(ds, set![0u32], repeat(w, k)).contains(q));
    } else {
        lemma_closure_repeats(t, w, (k - 1) as nat);
        let before = repeat(w, (k - 1) as nat);
        assert(before.len() > 0) by {
            assert(before == repeat(w, (k - 2) as nat) + w);
        }
        let qk = choose|qk: u32|
            #[trigger] reach(ds, set![0u32], before).contains(qk) && tree_accept(star(t)).contains(qk);
        lemma_accepted_at_last(star(t), before, qk);
        lemma_reach_append(ds, set![0u32], before, w);
        lemma_restart(t, w, q, qk);
        lemma_reach_monotone(ds, ds, set![qk], reach(ds, set![0u32], before), w);
        assert(reach(ds, set![0u32], repeat(w, k)).contains(q));
    }
}

/// The automaton compiled from `(p)*` accepts the empty string.
pub proof fn lemma_pattern_closure_accepts_empty(p: Seq<char>, n: NFA, closed: NFA)
    requires
        compiled_from(n, p),
        compiled_from(closed, seq!['('] + p + seq![')', '*']),
    ensures
        closed.accepts(Seq::empty()),
{
    lemma_parse_closure(p);
    lemma_closure_accepts_empty(parse(p)->Ok_0);
}

/// The automaton compiled from `(p)*` accepts every nonempty string that the
/// automaton compiled from `p` accepts, repeated any positive number of times.
pub proof fn lemma_pattern_closure_repeats(
    p: Seq<char>,
    n: NFA,
    closed: NFA,
    w: Seq<char>,
    k: nat,
)
    requires
        compiled_from(n, p),
        compiled_from(closed, seq!['('] + p + seq![')', '*']),
        w.len() > 0,
        n.accepts(w),
        k >= 1,
    ensures
        closed.accepts(repeat(w, k)),
{
    lemma_parse_closure(p);
    lemma_parse_numbered(p);
    lemma_closure_repeats(parse(p)->Ok_0, w, k);
}

/// `a.(b.c)` parses to `a` followed by the concatenation of `b` and `c`,
/// numbered `1`, `2`, `3`.
proof fn lemma_parse_right_nested()
    ensures
        parse(seq!['a', '.', '(', 'b', '.', 'c', ')']) == Ok::<Node, ParseError>(
            concat(leaf('a', 1), concat(leaf('b', 2), leaf('c', 3))),
        ),
{
    let e = Seq::<char>::empty();
    let s1 = e.push('a');
    let s2 = s1.push('.');
    let s3 = s2.push('(');
    let s4 = s3.push('b');
    let s5 = s4.push('.');
    let s6 = s5.push('c');
    let s7 = s6.push(')');
    assert(seq!['a', '.', '(', 'b', '.', 'c', ')'] =~= s7);
    assert(s1.drop_last() =~= e);
    assert(s2.drop_last() =~= s1);
    assert(s3.drop_last() =~= s2);
    assert(s4.drop_last() =~= s3);
    assert(s5.drop_last() =~= s4);
    assert(s6.drop_last() =~= s5);
    assert(s7.drop_last() =~= s6);
    assert(s1.last() == 'a' && s2.last() == '.' && s3.last() == '(' && s4.last() == 'b');
    assert(s5.last() == '.' && s6.last() == 'c' && s7.last() == ')');
    // No `)` is followed by `(`: the infix text is the pattern.
    reveal_with_fuel(infix_spec, 8);
    assert(infix_spec(s7) =~= s7);
    // Postfix: `abc..`.
    assert(shunt(e) == Ok::<(Seq<char>, Seq<char>), ParseError>((e, e)));
    assert(shunt(s1) == Ok::<(Seq<char>, Seq<char>), ParseError>((e, e.push('a'))));
    assert(shunt(s2) == Ok::<(Seq<char>, Seq<char>), ParseError>((e.push('.'), e.push('a'))));
    let st = e.push('.').push('(');
    assert(st.last() == '(');
    assert(st.drop_last() =~= e.push('.'));
    assert(shunt(s3) == Ok::<(Seq<char>, Seq<char>), ParseError>((st, e.push('a'))));
    assert(shunt(s4) == Ok::<(Seq<char>, Seq<char>), ParseError>((st, e.push('a').push('b'))));
    assert(shunt(s5) == Ok::<(Seq<char>, Seq<char>), ParseError>((st.push('.'), e.push('a').push('b'))));
    let o = e.push('a').push('b').push('c');
    assert(shunt(s6) == Ok::<(Seq<char>, Seq<char>), ParseError>((st.push('.'), o)));
    assert(st.push('.').last() == '.');
    assert(st.push('.').drop_last() =~= st);
    assert(close_group(st, o.push('.')) == Ok::<(Seq<char>, Seq<char>), ParseError>((e.push('.'), o.push('.'))));
    assert(close_group(st.push('.'), o) == Ok::<(Seq<char>, Seq<char>), ParseError>((e.push('.'), o.push('.'))));
    assert(shunt(s7) == Ok::<(Seq<char>, Seq<char>), ParseError>((e.push('.'), o.push('.'))));
    assert(e.push('.').drop_last() =~= e);
    assert(e.push('.').last() == '.');
    let x = o.push('.').push('.');
    assert(flush(e, x) == Ok::<Seq<char>, ParseError>(x));
    assert(flush(e.push('.'), o.push('.')) == Ok::<Seq<char>, ParseError>(x));
    assert(postfix_spec(s7) == Ok::<Seq<char>, ParseError>(x));
    // Tree.
    let x1 = e.push('a');
    let x2 = x1.push('b');
    let x3 = x2.push('c');
    let x4 = x3.push('.');
    assert(x4.push('.') == x);
    assert(x1.drop_last() =~= e && x2.drop_last() =~= x1 && x3.drop_last() =~= x2);
    assert(x4.drop_last() =~= x3 && x.drop_last() =~= x4);
    assert(x1.last() == 'a' && x2.last() == 'b' && x3.last() == 'c' && x4.last() == '.');
    assert(x.last() == '.');
    assert(literal_count(e) == 0);
    assert(literal_count(x1) == 1);
    assert(literal_count(x2) == 2);
    let n = Seq::<Node>::empty();
    assert(build(e) == Ok::<Seq<Node>, ParseError>(n));
    assert(build(x1) == Ok::<Seq<Node>, ParseError>(n.push(leaf('a', 1))));
    assert(build(x2) == Ok::<Seq<Node>, ParseError>(n.push(leaf('a', 1)).push(leaf('b', 2))));
    let b3 = n.push(leaf('a', 1)).push(leaf('b', 2)).push(leaf('c', 3));
    assert(build(x3) == Ok::<Seq<Node>, ParseError>(b3));
    let b4 = n.push(leaf('a', 1)).push(concat(leaf('b', 2), leaf('c', 3)));
    assert(b3.take(1) =~= n.push(leaf('a', 1)));
    assert(build(x4) == Ok::<Seq<Node>, ParseError>(b4));
    let b5 = n.push(concat(leaf('a', 1), concat(leaf('b', 2), leaf('c', 3))));
    assert(b4.take(0) =~= n);
    assert(build(x) == Ok::<Seq<Node>, ParseError>(b5));
    assert(tree_of(x) == Ok::<Node, ParseError>(b5[0]));
}

/// `(a.b).c` parses to the concatenation of `a` and `b`, followed by `c`,
/// numbered `1`, `2`, `3`.
proof fn lemma_parse_left_nested()
    ensures
        parse(seq!['(', 'a', '.', 'b', ')', '.', 'c']) == Ok::<Node, ParseError>(
            concat(concat(leaf('a', 1), leaf('b', 2)), leaf('c', 3)),
        ),
{
    let e = Seq::<char>::empty();
    let s1 = e.push('(');
    let s2 = s1.push('a');
    let s3 = s2.push('.');
    let s4 = s3.push('b');
    let s5 = s4.push(')');
    let s6 = s5.push('.');
    let s7 = s6.push('c');
    assert(seq!['(', 'a', '.', 'b', ')', '.', 'c'] =~= s7);
    assert(s1.drop_last() =~= e);
    assert(s2.drop_last() =~= s1);
    assert(s3.drop_last() =~= s2);
    assert(s4.drop_last() =~= s3);
    assert(s5.drop_last() =~= s4);
    assert(s6.drop_last() =~= s5);
    assert(s7.drop_last() =~= s6);
    assert(s1.last() == '(' && s2.last() == 'a' && s3.last() == '.' && s4.last() == 'b');
    assert(s5.last() == ')' && s6.last() == '.' && s7.last() == 'c');
    reveal_with_fuel(infix_spec, 8);
    assert(infix_spec(s7) =~= s7);
    // Postfix: `ab.c.`.
    assert(shunt(e) == Ok::<(Seq<char>, Seq<char>), ParseError>((e, e)));
    let st = e.push('(');
    assert(st.last() == '(');
    assert(st.drop_last() =~= e);
    assert(shunt(s1) == Ok::<(Seq<char>, Seq<char>), ParseError>((st, e)));
    assert(shunt(s2) == Ok::<(Seq<char>, Seq<char>), ParseError>((st, e.push('a'))));
    assert(shunt(s3) == Ok::<(Seq<char>, Seq<char>), ParseError>((st.push('.'), e.push('a'))));
    let o = e.push('a').push('b');
    assert(shunt(s4) == Ok::<(Seq<char>, Seq<char>), ParseError>((st.push('.'), o)));
    assert(st.push('.').last() == '.');
    assert(st.push('.').drop_last() =~= st);
    assert(close_group(st, o.push('.')) == Ok::<(Seq<char>, Seq<char>), ParseError>((e, o.push('.'))));
    assert(close_group(st.push('.'), o) == Ok::<(Seq<char>, Seq<char>), ParseError>((e, o.push('.'))));
    assert(shunt(s5) == Ok::<(Seq<char>, Seq<char>), ParseError>((e, o.push('.'))));
    assert(shunt(s6) == Ok::<(Seq<char>, Seq<char>), ParseError>((e.push('.'), o.push('.'))));
    let o7 = o.push('.').push('c');
    assert(shunt(s7) == Ok::<(Seq<char>, Seq<char>), ParseError>((e.push('.'), o7)));
    assert(e.push('.').drop_last() =~= e);
    assert(e.push('.').last() == '.');
    let x = o7.push('.');
    assert(flush(e, x) == Ok::<Seq<char>, ParseError>(x));
    assert(flush(e.push('.'), o7) == Ok::<Seq<char>, ParseError>(x));
    assert(postfix_spec(s7) == Ok::<Seq<char>, ParseError>(x));
    // Tree.
    let x1 = e.push('a');
    let x2 = x1.push('b');
    let x3 = x2.push('.');
    let x4 = x3.push('c');
    assert(x4.push('.') == x);
    assert(x1.drop_last() =~= e && x2.drop_last() =~= x1 && x3.drop_last() =~= x2);
    assert(x4.drop_last() =~= x3 && x.drop_last() =~= x4);
    assert(x1.last() == 'a' && x2.last() == 'b' && x3.last() == '.' && x4.last() == 'c');
    assert(x.last() == '.');
    assert(literal_count(e) == 0);
    assert(literal_count(x1) == 1);
    assert(literal_count(x2) == 2);
    assert(literal_count(x3) == 2);
    let n = Seq::<Node>::empty();
    assert(build(e) == Ok::<Seq<Node>, ParseError>(n));
    assert(build(x1) == Ok::<Seq<Node>, ParseError>(n.push(leaf('a', 1))));
    let b2 = n.push(leaf('a', 1)).push(leaf('b', 2));
    assert(build(x2) == Ok::<Seq<Node>, ParseError>(b2));
    let b3 = n.push(concat(leaf('a', 1), leaf('b', 2)));
    assert(b2.take(0) =~= n);
    assert(build(x3) == Ok::<Seq<Node>, ParseError>(b3));
    let b4 = b3.push(leaf('c', 3));
    assert(build(x4) == Ok::<Seq<Node>, ParseError>(b4));
    let b5 = n.push(concat(concat(leaf('a', 1), leaf('b', 2)), leaf('c', 3)));
    assert(b4.take(0) =~= n);
    assert(build(x) == Ok::<Seq<Node>, ParseError>(b5));
    assert(tree_of(x) == Ok::<Node, ParseError>(b5[0]));
}

/// A terminal.
pub open spec fn leaf(c: char, p: u32) -> Node {
    Node::Terminal(c, p)
}

/// The concatenation of two trees.
pub open spec fn concat(l: Node, r: Node) -> Node {
    Node::Operation(Operator::Concat, Box::new(l), Some(Box::new(r)))
}

/// The automata compiled from `a.(b.c)` and from `(a.b).c` accept the same
/// strings.
pub proof fn lemma_concat_assoc_patterns(n1: NFA, n2: NFA, w: Seq<char>)
    requires
        compiled_from(n1, seq!['a', '.', '(', 'b', '.', 'c', ')']),
        compiled_from(n2, seq!['(', 'a', '.', 'b', ')', '.', 'c']),
    ensures
        n1.accepts(w) == n2.accepts(w),
{
    lemma_parse_right_nested();
    lemma_parse_left_nested();
    let (a, b, c) = (leaf('a', 1), leaf('b', 2), leaf('c', 3));
    assert(!nullability(a).contains(SetTerminal::Epsilon));
    assert(!nullability(b).contains(SetTerminal::Epsilon));
    assert(!nullability(c).contains(SetTerminal::Epsilon));
    lemma_concat_assoc(a, b, c, w);
}

} // verus!
