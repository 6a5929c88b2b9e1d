//! The operators of an expression tree.
use vstd::prelude::*;

verus! {

/// An operation applied to one or two subtrees.
#[derive(Debug, Clone, Copy, PartialEq, Eq, Structural)]
pub enum Operator {
    /// Alternation of two subtrees.
    Or,
    /// Concatenation of two subtrees.
    Concat,
    /// Kleene closure of one subtree.
    Production,
}

} // verus!
