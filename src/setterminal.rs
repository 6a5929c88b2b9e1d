//! The elements of the sets computed over an expression tree.
use vstd::prelude::*;


verus! {

/// An element of a nullability, prefix, suffix or factors set.
#[derive(Debug, Clone, Copy, Eq, Hash)]
pub enum SetTerminal {
    /// One terminal occurrence: its symbol and position.
    SingleElement(char, u32),
    /// An occurrence of the first position that can be immediately followed
    /// by an occurrence of the second.
    DoubleElement(char, u32, char, u32),
    /// The subtree can match the empty string.
    Epsilon,
    /// No positions.
    Empty,
}

/// The pairs of operands on which `product` is defined: `Empty` absorbs,
/// `Epsilon` is the identity, and two single elements form a pair.
pub open spec fn product_defined(a: SetTerminal, b: SetTerminal) -> bool {
    match (a, b) {
        (SetTerminal::Empty, _) | (_, SetTerminal::Empty) => true,
        (SetTerminal::Epsilon, _) | (_, SetTerminal::Epsilon) => true,
        (SetTerminal::SingleElement(_, _), SetTerminal::SingleElement(_, _)) => true,
        _ => false,
    }
}

/// The product of two set elements, where it is defined.
pub open spec fn product_spec(a: SetTerminal, b: SetTerminal) -> SetTerminal {
    match (a, b) {
        (SetTerminal::Empty, _) | (_, SetTerminal::Empty) => SetTerminal::Empty,
        (SetTerminal::Epsilon, x) => x,
        (x, SetTerminal::Epsilon) => x,
        (SetTerminal::SingleElement(s1, p1), SetTerminal::SingleElement(s2, p2)) =>
            SetTerminal::DoubleElement(s1, p1, s2, p2),
        _ => SetTerminal::Empty,
    }
}

impl PartialEq for SetTerminal {
    /// Two elements are equal when they are the same variant with the same
    /// symbols and positions.
    fn eq(&self, other: &SetTerminal) -> (r: bool) {
        match (*self, *other) {
            (SetTerminal::SingleElement(a, a_code), SetTerminal::SingleElement(b, b_code)) => {
                a == b && a_code == b_code
            },
            (
                SetTerminal::DoubleElement(a, a_code, b, b_code),
                SetTerminal::DoubleElement(c, c_code, d, d_code),
            ) => a == c && a_code == c_code && b == d && b_code == d_code,
            (SetTerminal::Epsilon, SetTerminal::Epsilon) => true,
            (SetTerminal::Empty, SetTerminal::Empty) => true,
            _ => false,
        }
    }
}

impl vstd::std_specs::cmp::PartialEqSpecImpl for SetTerminal {
    open spec fn obeys_eq_spec() -> bool {
        true
    }

    open spec fn eq_spec(&self, other: &SetTerminal) -> bool {
        match (*self, *other) {
            (SetTerminal::SingleElement(a, a_code), SetTerminal::SingleElement(b, b_code)) => {
                a == b && a_code == b_code
            },
            (
                SetTerminal::DoubleElement(a, a_code, b, b_code),
                SetTerminal::DoubleElement(c, c_code, d, d_code),
            ) => a == c && a_code == c_code && b == d && b_code == d_code,
            (SetTerminal::Epsilon, SetTerminal::Epsilon) => true,
            (SetTerminal::Empty, SetTerminal::Empty) => true,
            _ => false,
        }
    }
}

impl SetTerminal {
    pub open spec fn is_single(self) -> bool {
        self is SingleElement
    }

    pub open spec fn is_double(self) -> bool {
        self is DoubleElement
    }

    /// Combines two set elements: `Empty` absorbs either operand, `Epsilon`
    /// leaves the other operand unchanged, and two single elements become the
    /// ordered pair of the first followed by the second.
    pub fn product(&self, other: &SetTerminal) -> (r: SetTerminal)
        requires
            product_defined(*self, *other),
        ensures
            r == product_spec(*self, *other),
    {
        match (self, other) {
            (SetTerminal::Empty, _) => SetTerminal::Empty,
            (_, SetTerminal::Empty) => SetTerminal::Empty,
            (SetTerminal::Epsilon, x) => *x,
            (x, SetTerminal::Epsilon) => *x,
            (SetTerminal::SingleElement(a, a_code), SetTerminal::SingleElement(b, b_code)) => {
                SetTerminal::DoubleElement(*a, *a_code, *b, *b_code)
            },
            _ => SetTerminal::Empty,
        }
    }
}

} // verus!
