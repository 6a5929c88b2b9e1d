//! A regular-expression engine built on Glushkov's construction.
//!
//! A pattern is parsed into an expression tree whose terminals carry distinct
//! positions; the prefix, suffix and factors sets of that tree give the states
//! and transitions of a nondeterministic automaton, which is then simulated on
//! input strings.
use vstd::prelude::*;

pub mod laws;
pub mod linearize;
pub mod nfa;
pub mod node;
pub mod operator;
pub mod seqs;
pub mod setterminal;
pub mod text;
pub mod vecset;

use crate::linearize::{linearize, parse, ParseError};
use crate::nfa::{glushkov_delta, glushkov_states, single_positions, NFA};
use crate::node::{accepts_empty, factors, matches_empty, factors_set, prefix, prefix_set, suffix, suffix_set, Node};

verus! {

/// The transition relation of the automaton built from a tree.
pub open spec fn tree_delta(t: Node) -> Set<nfa::Edge> {
    glushkov_delta(prefix(t), factors(t))
}

/// The accepting states of the automaton built from a tree: its last
/// positions, and the start state where the tree matches the empty string.
pub open spec fn tree_accept(t: Node) -> Set<u32> {
    single_positions(suffix(t)) + if matches_empty(t) {
        set![0u32]
    } else {
        Set::empty()
    }
}

/// The automaton built from a tree accepts `w`.
pub open spec fn tree_accepts(t: Node, w: Seq<char>) -> bool {
    nfa::accepts_in(tree_delta(t), tree_accept(t), w)
}

/// `n` is the automaton of Glushkov's construction for the tree `t`.
pub open spec fn built_from(n: NFA, t: Node) -> bool {
    &&& n.states() == glushkov_states(prefix(t), suffix(t), factors(t))
    &&& n.accept_states() == tree_accept(t)
    &&& n.delta() == tree_delta(t)
}

/// `n` is the automaton compiled from the pattern `p`.
pub open spec fn compiled_from(n: NFA, p: Seq<char>) -> bool {
    parse(p) matches Ok(t) && built_from(n, t)
}

/// Translates a regular expression tree to the automaton of Glushkov's
/// construction, which can then be simulated on inputs.
pub fn regex(regex_tree: &Node) -> (r: NFA)
    requires
        regex_tree.wf(),
    ensures
        built_from(r, *regex_tree),
{
    let prefix_set = prefix_set(regex_tree);
    let suffix_set = suffix_set(regex_tree);
    let factors_set = factors_set(regex_tree);
    proof {
        node::lemma_prefix_suffix_single(*regex_tree);
        node::lemma_factors_pairs(*regex_tree);
    }
    let mut nfa = NFA::set_to_nfa(&prefix_set, &suffix_set, &factors_set);
    if accepts_empty(regex_tree) {
        nfa.accept_start();
        proof {
            assert(nfa.accept_states() =~= tree_accept(*regex_tree));
        }
    } else {
        proof {
            assert(nfa.accept_states() =~= tree_accept(*regex_tree));
        }
    }
    nfa
}

/// Compiles a pattern: parses it into a tree and builds the tree's automaton.
pub fn compile_from_string(pattern: &str) -> (r: Result<NFA, ParseError>)
    ensures
        match parse(pattern@) {
            Ok(_) => r matches Ok(n) && compiled_from(n, pattern@),
            Err(e) => r == Err::<NFA, ParseError>(e),
        },
{
    match linearize(pattern) {
        Ok(tree) => Ok(regex(&tree)),
        Err(e) => Err(e),
    }
}

} // verus!
