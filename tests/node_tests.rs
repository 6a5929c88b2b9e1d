use std::collections::HashSet;

use gregex::node::{factors_set, nullability_set, prefix_set, suffix_set, Node};
use gregex::operator::Operator;
use gregex::setterminal::SetTerminal;

fn as_set(v: Vec<SetTerminal>) -> HashSet<SetTerminal> {
    let n = v.len();
    let set: HashSet<SetTerminal> = v.into_iter().collect();
    assert_eq!(set.len(), n, "a set element is repeated");
    set
}

fn or_ab() -> Node {
    Node::Operation(
        Operator::Or,
        Box::new(Node::Terminal('a', 1)),
        Option::Some(Box::new(Node::Terminal('b', 2))),
    )
}

fn concat_ab() -> Node {
    Node::Operation(
        Operator::Concat,
        Box::new(Node::Terminal('a', 1)),
        Option::Some(Box::new(Node::Terminal('b', 2))),
    )
}

fn star_a() -> Node {
    Node::Operation(Operator::Production, Box::new(Node::Terminal('a', 1)), None)
}

// Linearized regex: (a(ab)*)* + (ba)*
fn complete() -> Node {
    Node::Operation(
        Operator::Or,
        Box::new(Node::Operation(
            Operator::Production,
            Box::new(Node::Operation(
                Operator::Concat,
                Box::new(Node::Terminal('a', 1)),
                Some(Box::new(Node::Operation(
                    Operator::Production,
                    Box::new(Node::Operation(
                        Operator::Concat,
                        Box::new(Node::Terminal('a', 2)),
                        Option::Some(Box::new(Node::Terminal('b', 3))),
                    )),
                    None,
                ))),
            )),
            None,
        )),
        Option::Some(Box::new(Node::Operation(
            Operator::Production,
            Box::new(Node::Operation(
                Operator::Concat,
                Box::new(Node::Terminal('b', 4)),
                Option::Some(Box::new(Node::Terminal('a', 5))),
            )),
            None,
        ))),
    )
}

#[test]
fn nullability_set_test_or() {
    let set = as_set(nullability_set(&or_ab()));
    let mut test_set = HashSet::new();
    test_set.insert(SetTerminal::Empty);
    assert_eq!(set, test_set);
}

#[test]
fn nullability_set_test_concat() {
    let set = as_set(nullability_set(&concat_ab()));
    let mut test_set = HashSet::new();
    test_set.insert(SetTerminal::Empty);
    assert_eq!(set, test_set);
}

#[test]
fn nullability_set_test_production() {
    let set = as_set(nullability_set(&star_a()));
    let mut test_set = HashSet::new();
    test_set.insert(SetTerminal::Epsilon);
    assert_eq!(set, test_set);
}

#[test]
fn nullability_set_test_terminal() {
    let set = as_set(nullability_set(&Node::Terminal('a', 1)));
    let mut test_set = HashSet::new();
    test_set.insert(SetTerminal::Empty);
    assert_eq!(set, test_set);
}

#[test]
fn nullability_concat_keeps_both_sides() {
    let tree = Node::Operation(Operator::Concat, Box::new(star_a()), Some(Box::new(Node::Terminal('b', 2))));
    let set = as_set(nullability_set(&tree));
    let mut test_set = HashSet::new();
    test_set.insert(SetTerminal::Epsilon);
    test_set.insert(SetTerminal::Empty);
    assert_eq!(set, test_set);
}

#[test]
fn prefix_set_test_or() {
    let set = as_set(prefix_set(&or_ab()));
    let mut test_set = HashSet::new();
    test_set.insert(SetTerminal::SingleElement('a', 1));
    test_set.insert(SetTerminal::SingleElement('b', 2));
    assert_eq!(set, test_set);
}

#[test]
fn prefix_set_test_production() {
    let set = as_set(prefix_set(&star_a()));
    let mut test_set = HashSet::new();
    test_set.insert(SetTerminal::SingleElement('a', 1));
    assert_eq!(set, test_set);
}

#[test]
fn prefix_set_test_concat() {
    let set = as_set(prefix_set(&concat_ab()));
    let mut test_set = HashSet::new();
    test_set.insert(SetTerminal::SingleElement('a', 1));
    assert_eq!(set, test_set);
}

#[test]
fn prefix_set_test_terminal() {
    let set = as_set(prefix_set(&Node::Terminal('a', 1)));
    let mut test_set = HashSet::new();
    test_set.insert(SetTerminal::SingleElement('a', 1));
    assert_eq!(set, test_set);
}

#[test]
fn prefix_set_test_complete() {
    let set = as_set(prefix_set(&complete()));
    let mut test_set = HashSet::new();
    test_set.insert(SetTerminal::SingleElement('a', 1));
    test_set.insert(SetTerminal::SingleElement('b', 4));
    assert_eq!(set, test_set);
}

#[test]
fn prefix_concat_with_nullable_left() {
    let tree = Node::Operation(Operator::Concat, Box::new(star_a()), Some(Box::new(Node::Terminal('b', 2))));
    let set = as_set(prefix_set(&tree));
    let mut test_set = HashSet::new();
    test_set.insert(SetTerminal::SingleElement('a', 1));
    test_set.insert(SetTerminal::SingleElement('b', 2));
    assert_eq!(set, test_set);
}

#[test]
fn suffix_set_test_or() {
    let set = as_set(suffix_set(&or_ab()));
    let mut test_set = HashSet::new();
    test_set.insert(SetTerminal::SingleElement('a', 1));
    test_set.insert(SetTerminal::SingleElement('b', 2));
    assert_eq!(set, test_set);
}

#[test]
fn suffix_set_test_production() {
    let set = as_set(suffix_set(&star_a()));
    let mut test_set = HashSet::new();
    test_set.insert(SetTerminal::SingleElement('a', 1));
    assert_eq!(set, test_set);
}

#[test]
fn suffix_set_test_concat() {
    let set = as_set(suffix_set(&concat_ab()));
    let mut test_set = HashSet::new();
    test_set.insert(SetTerminal::SingleElement('b', 2));
    assert_eq!(set, test_set);
}

#[test]
fn suffix_set_test_terminal() {
    let set = as_set(suffix_set(&Node::Terminal('a', 1)));
    let mut test_set = HashSet::new();
    test_set.insert(SetTerminal::SingleElement('a', 1));
    assert_eq!(set, test_set);
}

#[test]
fn suffix_set_test_complete() {
    let set = as_set(suffix_set(&complete()));
    let mut test_set = HashSet::new();
    test_set.insert(SetTerminal::SingleElement('a', 1));
    test_set.insert(SetTerminal::SingleElement('b', 3));
    test_set.insert(SetTerminal::SingleElement('a', 5));
    assert_eq!(set, test_set);
}

#[test]
fn factors_set_test_or() {
    let set = as_set(factors_set(&or_ab()));
    let mut test_set = HashSet::new();
    test_set.insert(SetTerminal::Empty);
    assert_eq!(set, test_set);
}

#[test]
fn factors_set_test_production() {
    let set = as_set(factors_set(&star_a()));
    let mut test_set = HashSet::new();
    test_set.insert(SetTerminal::DoubleElement('a', 1, 'a', 1));
    assert_eq!(set, test_set);
}

#[test]
fn factors_set_test_concat() {
    let set = as_set(factors_set(&concat_ab()));
    let mut test_set = HashSet::new();
    test_set.insert(SetTerminal::DoubleElement('a', 1, 'b', 2));
    assert_eq!(set, test_set);
}

#[test]
fn factors_set_test_complete() {
    let set = as_set(factors_set(&complete()));
    let mut test_set = HashSet::new();
    test_set.insert(SetTerminal::DoubleElement('a', 1, 'a', 2));
    test_set.insert(SetTerminal::DoubleElement('a', 1, 'a', 1));
    test_set.insert(SetTerminal::DoubleElement('a', 2, 'b', 3));
    test_set.insert(SetTerminal::DoubleElement('b', 3, 'a', 1));
    test_set.insert(SetTerminal::DoubleElement('b', 3, 'a', 2));
    test_set.insert(SetTerminal::DoubleElement('b', 4, 'a', 5));
    test_set.insert(SetTerminal::DoubleElement('a', 5, 'b', 4));
    assert_eq!(set, test_set);
}

#[test]
fn factors_terminal_is_empty_alone() {
    let set = as_set(factors_set(&Node::Terminal('a', 1)));
    let mut test_set = HashSet::new();
    test_set.insert(SetTerminal::Empty);
    assert_eq!(set, test_set);
}
