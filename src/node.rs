//! Expression trees and the four sets of Glushkov's construction.
use vstd::prelude::*;

use crate::operator::Operator;
use crate::setterminal::{product_defined, product_spec, SetTerminal};
use vstd::std_specs::cmp::PartialEqSpec;
use crate::vecset;
use crate::vecset::is_set;

verus! {

/// Equality of set elements is equality of their values.
pub proof fn lemma_set_terminal_eq()
    ensures
        vstd::laws_eq::obeys_concrete_eq::<SetTerminal>(),
{
    reveal(vstd::laws_eq::obeys_concrete_eq);
    assert forall|x: SetTerminal, y: SetTerminal| x.eq_spec(&y) <==> x == y by {
        match (x, y) {
            (SetTerminal::SingleElement(_, _), SetTerminal::SingleElement(_, _)) => {},
            (SetTerminal::DoubleElement(_, _, _, _), SetTerminal::DoubleElement(_, _, _, _)) => {},
            _ => {},
        }
    }
}


/// A node of a regular expression tree.
#[derive(Debug, PartialEq, Eq)]
pub enum Node {
    /// An operation on one subtree (closure) or two (alternation, concatenation).
    Operation(Operator, Box<Node>, Option<Box<Node>>),
    /// A symbol and the position that tells its occurrence apart from others.
    Terminal(char, u32),
}

impl Node {
    /// Binary operators have a right operand, in every subtree.
    pub open spec fn wf(self) -> bool
        decreases self,
    {
        match self {
            Node::Terminal(_, _) => true,
            Node::Operation(op, l, r) => {
                &&& l.wf()
                &&& match op {
                    Operator::Production => true,
                    _ => r is Some && r->0.wf(),
                }
            },
        }
    }

    /// The positions of the terminals, from left to right.
    pub open spec fn positions(self) -> Seq<u32>
        decreases self,
    {
        match self {
            Node::Terminal(_, p) => seq![p],
            Node::Operation(_, l, r) => l.positions() + match r {
                Some(r) => r.positions(),
                None => Seq::empty(),
            },
        }
    }

    /// No terminal has position `0`, which names the start state.
    pub open spec fn positions_nonzero(self) -> bool
        decreases self,
    {
        match self {
            Node::Terminal(_, p) => p != 0,
            Node::Operation(_, l, r) => {
                &&& l.positions_nonzero()
                &&& match r {
                    Some(r) => r.positions_nonzero(),
                    None => true,
                }
            },
        }
    }
}

/// Alternation and concatenation keep every element of both sides.
pub open spec fn nullability(t: Node) -> Set<SetTerminal>
    decreases t,
{
    match t {
        Node::Terminal(_, _) => set![SetTerminal::Empty],
        Node::Operation(Operator::Production, _, _) => set![SetTerminal::Epsilon],
        Node::Operation(_, l, r) => match r {
            Some(r) => nullability(*l) + nullability(*r),
            None => nullability(*l),
        },
    }
}

/// Whether the tree matches the empty string: a closure does, an alternation
/// does where either side does, a concatenation where both sides do, and a
/// terminal never does.
pub open spec fn matches_empty(t: Node) -> bool
    decreases t,
{
    match t {
        Node::Terminal(_, _) => false,
        Node::Operation(Operator::Production, _, _) => true,
        Node::Operation(Operator::Or, l, r) => match r {
            Some(r) => matches_empty(*l) || matches_empty(*r),
            None => matches_empty(*l),
        },
        Node::Operation(Operator::Concat, l, r) => match r {
            Some(r) => matches_empty(*l) && matches_empty(*r),
            None => matches_empty(*l),
        },
    }
}

/// Whether the nullability set marks the tree as matching the empty string.
pub open spec fn nullable(t: Node) -> bool {
    nullability(t).contains(SetTerminal::Epsilon)
}

/// The positions that can match the first symbol.
pub open spec fn prefix(t: Node) -> Set<SetTerminal>
    decreases t,
{
    match t {
        Node::Terminal(s, p) => set![SetTerminal::SingleElement(s, p)],
        Node::Operation(Operator::Production, l, _) => prefix(*l),
        Node::Operation(Operator::Or, l, r) => match r {
            Some(r) => prefix(*l) + prefix(*r),
            None => prefix(*l),
        },
        Node::Operation(Operator::Concat, l, r) => match r {
            Some(r) => if nullable(*l) {
                prefix(*l) + prefix(*r)
            } else {
                prefix(*l)
            },
            None => prefix(*l),
        },
    }
}

/// The positions that can match the last symbol.
pub open spec fn suffix(t: Node) -> Set<SetTerminal>
    decreases t,
{
    match t {
        Node::Terminal(s, p) => set![SetTerminal::SingleElement(s, p)],
        Node::Operation(Operator::Production, l, _) => suffix(*l),
        Node::Operation(Operator::Or, l, r) => match r {
            Some(r) => suffix(*l) + suffix(*r),
            None => suffix(*l),
        },
        Node::Operation(Operator::Concat, l, r) => match r {
            Some(r) => if nullable(*r) {
                suffix(*r) + suffix(*l)
            } else {
                suffix(*r)
            },
            None => suffix(*l),
        },
    }
}

/// The products of every element of `a` with every element of `b`.
pub open spec fn cross(a: Set<SetTerminal>, b: Set<SetTerminal>) -> Set<SetTerminal> {
    Set::new(
        |z: SetTerminal|
            exists|x: SetTerminal, y: SetTerminal|
                a.contains(x) && b.contains(y) && z == product_spec(x, y),
    )
}

/// `Empty` is kept only where nothing else is in the set.
pub open spec fn drop_empty(s: Set<SetTerminal>) -> Set<SetTerminal> {
    if exists|x: SetTerminal| s.contains(x) && x != SetTerminal::Empty {
        s.remove(SetTerminal::Empty)
    } else {
        s
    }
}

/// The ordered pairs of positions that can stand next to each other.
pub open spec fn factors(t: Node) -> Set<SetTerminal>
    decreases t,
{
    match t {
        Node::Terminal(_, _) => set![SetTerminal::Empty],
        Node::Operation(Operator::Production, l, _) => drop_empty(
            factors(*l) + cross(suffix(*l), prefix(*l)),
        ),
        Node::Operation(Operator::Or, l, r) => match r {
            Some(r) => drop_empty(factors(*l) + factors(*r)),
            None => factors(*l),
        },
        Node::Operation(Operator::Concat, l, r) => match r {
            Some(r) => drop_empty(factors(*l) + factors(*r) + cross(suffix(*l), prefix(*r))),
            None => factors(*l),
        },
    }
}

/// Every element of the set is a single element.
pub open spec fn all_single(s: Set<SetTerminal>) -> bool {
    forall|x: SetTerminal| #[trigger] s.contains(x) ==> x.is_single()
}

/// Prefix and suffix sets hold single elements only.
pub proof fn lemma_prefix_suffix_single(t: Node)
    ensures
        all_single(prefix(t)),
        all_single(suffix(t)),
    decreases t,
{
    match t {
        Node::Terminal(_, _) => {},
        Node::Operation(_, l, r) => {
            lemma_prefix_suffix_single(*l);
            match r {
                Some(r) => lemma_prefix_suffix_single(*r),
                None => {},
            }
        },
    }
}

/// The product of single elements is a pair.
pub proof fn lemma_cross_pairs(a: Set<SetTerminal>, b: Set<SetTerminal>)
    requires
        all_single(a),
        all_single(b),
    ensures
        forall|z: SetTerminal| #[trigger] cross(a, b).contains(z) ==> z.is_double(),
{
    assert forall|z: SetTerminal| #[trigger] cross(a, b).contains(z) implies z.is_double() by {
        let (x, y) = choose|x: SetTerminal, y: SetTerminal|
            a.contains(x) && b.contains(y) && z == product_spec(x, y);
        assert(x.is_single());
        assert(y.is_single());
    }
}

/// The factors set holds pairs and, at most, `Empty`.
pub proof fn lemma_factors_pairs(t: Node)
    ensures
        forall|x: SetTerminal| #[trigger] factors(t).contains(x) ==> x.is_double() || x
            == SetTerminal::Empty,
    decreases t,
{
    lemma_prefix_suffix_single(t);
    match t {
        Node::Terminal(_, _) => {},
        Node::Operation(_, l, r) => {
            lemma_prefix_suffix_single(*l);
            lemma_factors_pairs(*l);
            lemma_cross_pairs(suffix(*l), prefix(*l));
            match r {
                Some(r) => {
                    lemma_prefix_suffix_single(*r);
                    lemma_factors_pairs(*r);
                    lemma_cross_pairs(suffix(*l), prefix(*r));
                },
                None => {},
            }
            assert forall|x: SetTerminal| #[trigger] factors(t).contains(x) implies x.is_double()
                || x == SetTerminal::Empty by {
                if !factors(*l).contains(x) && !cross(suffix(*l), prefix(*l)).contains(x) {
                    let r = r->0;
                    assert(factors(*r).contains(x) || cross(suffix(*l), prefix(*r)).contains(x));
                }
            }
        },
    }
}

/// No element of the set names position `0`.
pub open spec fn nonzero_elements(s: Set<SetTerminal>) -> bool {
    forall|x: SetTerminal|
        #[trigger] s.contains(x) ==> match x {
            SetTerminal::SingleElement(_, p) => p != 0,
            SetTerminal::DoubleElement(_, p1, _, p2) => p1 != 0 && p2 != 0,
            _ => true,
        }
}

proof fn lemma_cross_nonzero(a: Set<SetTerminal>, b: Set<SetTerminal>)
    requires
        all_single(a),
        all_single(b),
        nonzero_elements(a),
        nonzero_elements(b),
    ensures
        nonzero_elements(cross(a, b)),
{
    assert forall|z: SetTerminal| #[trigger] cross(a, b).contains(z) implies match z {
        SetTerminal::SingleElement(_, p) => p != 0,
        SetTerminal::DoubleElement(_, p1, _, p2) => p1 != 0 && p2 != 0,
        _ => true,
    } by {
        let (x, y) = choose|x: SetTerminal, y: SetTerminal|
            a.contains(x) && b.contains(y) && z == product_spec(x, y);
        assert(x.is_single());
        assert(y.is_single());
    }
}

/// Where no terminal has position `0`, no element of the prefix, suffix and
/// factors sets names it.
pub proof fn lemma_sets_nonzero(t: Node)
    requires
        t.positions_nonzero(),
    ensures
        nonzero_elements(prefix(t)),
        nonzero_elements(suffix(t)),
        nonzero_elements(factors(t)),
    decreases t,
{
    lemma_prefix_suffix_single(t);
    match t {
        Node::Terminal(_, _) => {},
        Node::Operation(_, l, r) => {
            lemma_sets_nonzero(*l);
            lemma_prefix_suffix_single(*l);
            lemma_cross_nonzero(suffix(*l), prefix(*l));
            match r {
                Some(r) => {
                    lemma_sets_nonzero(*r);
                    lemma_prefix_suffix_single(*r);
                    lemma_cross_nonzero(suffix(*l), prefix(*r));
                },
                None => {},
            }
        },
    }
}

/// Whether the tree matches the empty string.
pub fn accepts_empty(regex_tree: &Node) -> (r: bool)
    requires
        regex_tree.wf(),
    ensures
        r == matches_empty(*regex_tree),
    decreases regex_tree,
{
    match regex_tree {
        Node::Terminal(_, _) => false,
        Node::Operation(Operator::Production, _, _) => true,
        Node::Operation(Operator::Or, left, right) => {
            let right = right.as_ref().unwrap();
            accepts_empty(left) || accepts_empty(right)
        },
        Node::Operation(Operator::Concat, left, right) => {
            let right = right.as_ref().unwrap();
            accepts_empty(left) && accepts_empty(right)
        },
    }
}

/// The nullability set of a tree.
pub fn nullability_set(regex_tree: &Node) -> (r: Vec<SetTerminal>)
    requires
        regex_tree.wf(),
    ensures
        is_set(r@),
        r@.to_set() == nullability(*regex_tree),
    decreases regex_tree,
{
    proof {
        lemma_set_terminal_eq();
    }
    let mut set: Vec<SetTerminal> = Vec::new();
    match regex_tree {
        Node::Terminal(_, _) => {
            vecset::insert(&mut set, SetTerminal::Empty);
        },
        Node::Operation(Operator::Production, _, _) => {
            vecset::insert(&mut set, SetTerminal::Epsilon);
        },
        Node::Operation(_, left, right) => {
            let right = right.as_ref().unwrap();
            vecset::extend(&mut set, &nullability_set(left));
            vecset::extend(&mut set, &nullability_set(right));
        },
    }
    proof {
        assert(set@.to_set() =~= nullability(*regex_tree));
    }
    set
}

/// The prefix set of a tree: the positions that can match the first symbol.
pub fn prefix_set(regex_tree: &Node) -> (r: Vec<SetTerminal>)
    requires
        regex_tree.wf(),
    ensures
        is_set(r@),
        r@.to_set() == prefix(*regex_tree),
    decreases regex_tree,
{
    proof {
        lemma_set_terminal_eq();
    }
    let mut set: Vec<SetTerminal> = Vec::new();
    match regex_tree {
        Node::Terminal(symbol, code) => {
            vecset::insert(&mut set, SetTerminal::SingleElement(*symbol, *code));
        },
        Node::Operation(Operator::Production, left, _) => {
            set = prefix_set(left);
        },
        Node::Operation(Operator::Or, left, right) => {
            let right = right.as_ref().unwrap();
            vecset::extend(&mut set, &prefix_set(left));
            vecset::extend(&mut set, &prefix_set(right));
        },
        Node::Operation(Operator::Concat, left, right) => {
            let right = right.as_ref().unwrap();
            vecset::extend(&mut set, &prefix_set(left));
            // Where the left side can match nothing, the right side can begin the match.
            if vecset::contains(&nullability_set(left), &SetTerminal::Epsilon) {
                vecset::extend(&mut set, &prefix_set(right));
            }
        },
    }
    proof {
        assert(set@.to_set() =~= prefix(*regex_tree));
    }
    set
}

/// The suffix set of a tree: the positions that can match the last symbol.
pub fn suffix_set(regex_tree: &Node) -> (r: Vec<SetTerminal>)
    requires
        regex_tree.wf(),
    ensures
        is_set(r@),
        r@.to_set() == suffix(*regex_tree),
    decreases regex_tree,
{
    proof {
        lemma_set_terminal_eq();
    }
    let mut set: Vec<SetTerminal> = Vec::new();
    match regex_tree {
        Node::Terminal(symbol, code) => {
            vecset::insert(&mut set, SetTerminal::SingleElement(*symbol, *code));
        },
        Node::Operation(Operator::Production, left, _) => {
            set = suffix_set(left);
        },
        Node::Operation(Operator::Or, left, right) => {
            let right = right.as_ref().unwrap();
            vecset::extend(&mut set, &suffix_set(left));
            vecset::extend(&mut set, &suffix_set(right));
        },
        Node::Operation(Operator::Concat, left, right) => {
            let right = right.as_ref().unwrap();
            vecset::extend(&mut set, &suffix_set(right));
            // Where the right side can match nothing, the left side can end the match.
            if vecset::contains(&nullability_set(right), &SetTerminal::Epsilon) {
                vecset::extend(&mut set, &suffix_set(left));
            }
        },
    }
    proof {
        assert(set@.to_set() =~= suffix(*regex_tree));
    }
    set
}

/// Adds to `set` the product of every element of `a` with every element of `b`.
fn extend_products(set: &mut Vec<SetTerminal>, a: &Vec<SetTerminal>, b: &Vec<SetTerminal>)
    requires
        is_set(old(set)@),
        all_single(a@.to_set()),
        all_single(b@.to_set()),
    ensures
        is_set(final(set)@),
        final(set)@.to_set() == old(set)@.to_set() + cross(a@.to_set(), b@.to_set()),
{
    proof {
        lemma_set_terminal_eq();
    }
    let mut i: usize = 0;
    while i < a.len()
        invariant
            i <= a.len(),
            is_set(set@),
            all_single(a@.to_set()),
            all_single(b@.to_set()),
            set@.to_set() == old(set)@.to_set() + cross(a@.take(i as int).to_set(), b@.to_set()),
        decreases a.len() - i,
    {
        let ghost before = set@.to_set();
        let mut j: usize = 0;
        while j < b.len()
            invariant
                i < a.len(),
                j <= b.len(),
                is_set(set@),
                all_single(a@.to_set()),
                all_single(b@.to_set()),
                set@.to_set() == before + Set::new(
                    |z: SetTerminal|
                        exists|y: SetTerminal|
                            b@.take(j as int).contains(y) && z == product_spec(a@[i as int], y),
                ),
            decreases b.len() - j,
        {
            assert(a@.to_set().contains(a@[i as int]));
            assert(b@.to_set().contains(b@[j as int]));
            let p = a[i].product(&b[j]);
            proof {
                lemma_set_terminal_eq();
            }
            vecset::insert(set, p);
            proof {
                let bj = b@.take(j as int);
                assert(b@.take(j + 1) == bj.push(b@[j as int]));
                assert forall|y: SetTerminal| #[trigger] bj.push(b@[j as int]).contains(y)
                    implies bj.contains(y) || y == b@[j as int] by {
                    let k = choose|k: int| 0 <= k < bj.len() + 1 && bj.push(b@[j as int])[k] == y;
                    if k < bj.len() {
                        assert(bj[k] == y);
                    }
                }
                assert forall|y: SetTerminal| #[trigger] bj.contains(y)
                    implies bj.push(b@[j as int]).contains(y) by {
                    let k = choose|k: int| 0 <= k < bj.len() && bj[k] == y;
                    assert(bj.push(b@[j as int])[k] == y);
                }
                assert(bj.push(b@[j as int])[bj.len() as int] == b@[j as int]);
                assert(set@.to_set() =~= before + Set::new(
                    |z: SetTerminal|
                        exists|y: SetTerminal|
                            b@.take(j + 1).contains(y) && z == product_spec(a@[i as int], y),
                ));
            }
            j = j + 1;
        }
        proof {
            let ai = a@.take(i as int);
            assert(b@.take(b@.len() as int) == b@);
            assert(a@.take(i + 1) == ai.push(a@[i as int]));
            ai.lemma_push_to_set_commute(a@[i as int]);
            assert(set@.to_set() =~= old(set)@.to_set() + cross(a@.take(i + 1).to_set(), b@.to_set()));
        }
        i = i + 1;
    }
    proof {
        assert(a@.take(a@.len() as int) == a@);
    }
}

/// Removes `Empty` when the set holds anything else.
fn drop_empty_in(set: &mut Vec<SetTerminal>)
    requires
        is_set(old(set)@),
    ensures
        is_set(final(set)@),
        final(set)@.to_set() == drop_empty(old(set)@.to_set()),
{
    proof {
        lemma_set_terminal_eq();
    }
    if set.len() > 1 && vecset::contains(set, &SetTerminal::Empty) {
        proof {
            let other = if set@[0] == SetTerminal::Empty { set@[1] } else { set@[0] };
            assert(set@.to_set().contains(other));
        }
        vecset::remove(set, &SetTerminal::Empty);
    } else {
        proof {
            if set@.len() == 1 {
                assert forall|x: SetTerminal| set@.to_set().contains(x) implies x == set@[0] by {
                    let k = choose|k: int| 0 <= k < set@.len() && set@[k] == x;
                }
            }
        }
    }
}

/// The factors set of a tree: the ordered pairs of positions that can stand
/// next to each other in a matched string.
pub fn factors_set(regex_tree: &Node) -> (r: Vec<SetTerminal>)
    requires
        regex_tree.wf(),
    ensures
        is_set(r@),
        r@.to_set() == factors(*regex_tree),
    decreases regex_tree,
{
    proof {
        lemma_set_terminal_eq();
    }
    let mut set: Vec<SetTerminal> = Vec::new();
    match regex_tree {
        Node::Terminal(_, _) => {
            vecset::insert(&mut set, SetTerminal::Empty);
            assert(set@.to_set() =~= factors(*regex_tree));
        },
        Node::Operation(Operator::Production, left, _) => {
            vecset::extend(&mut set, &factors_set(left));
            let suffix_set = suffix_set(left);
            let prefix_set = prefix_set(left);
            proof {
                lemma_prefix_suffix_single(**left);
            }
            // The closure can begin again after any last position.
            extend_products(&mut set, &suffix_set, &prefix_set);
            assert(set@.to_set() =~= factors(**left) + cross(suffix(**left), prefix(**left)));
            drop_empty_in(&mut set);
            assert(set@.to_set() == factors(*regex_tree));
        },
        Node::Operation(Operator::Or, left, right) => {
            let right = right.as_ref().unwrap();
            vecset::extend(&mut set, &factors_set(left));
            vecset::extend(&mut set, &factors_set(right));
            assert(set@.to_set() =~= factors(**left) + factors(**right));
            drop_empty_in(&mut set);
            assert(set@.to_set() == factors(*regex_tree));
        },
        Node::Operation(Operator::Concat, left, right) => {
            let right = right.as_ref().unwrap();
            vecset::extend(&mut set, &factors_set(left));
            vecset::extend(&mut set, &factors_set(right));
            let suffix_set = suffix_set(left);
            let prefix_set = prefix_set(right);
            proof {
                lemma_prefix_suffix_single(**left);
                lemma_prefix_suffix_single(**right);
            }
            // Every last position of the left side leads to every first position of the right.
            extend_products(&mut set, &suffix_set, &prefix_set);
            assert(set@.to_set() =~= factors(**left) + factors(**right) + cross(
                suffix(**left),
                prefix(**right),
            ));
            drop_empty_in(&mut set);
            assert(set@.to_set() == factors(*regex_tree));
        },
    }
    set
}

} // verus!
