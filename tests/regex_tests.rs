use gregex::linearize::ParseError;
use gregex::node::Node;
use gregex::operator::Operator;
use gregex::{compile_from_string, regex};

fn star(n: Node) -> Node {
    Node::Operation(Operator::Production, Box::new(n), None)
}

fn dot(l: Node, r: Node) -> Node {
    Node::Operation(Operator::Concat, Box::new(l), Some(Box::new(r)))
}

#[test]
fn test_regex() {
    let tree = dot(dot(star(Node::Terminal('a', 1)), Node::Terminal('b', 2)), Node::Terminal('c', 3));
    let regex = regex(&tree);
    assert!(regex.simulate("abc"));
    assert!(!regex.simulate("a"));
    assert!(regex.simulate("aaabc"));
}

#[test]
fn concatenation_scenario() {
    let nfa = compile_from_string("a.b").unwrap();
    assert!(nfa.simulate("ab"));
    assert!(!nfa.simulate("a"));
    assert!(!nfa.simulate("abc"));
}

#[test]
fn closure_then_symbol_scenario() {
    let nfa = compile_from_string("a*.b").unwrap();
    assert!(nfa.simulate("b"));
    assert!(nfa.simulate("ab"));
    assert!(nfa.simulate("aaab"));
    assert!(!nfa.simulate(""));
}

#[test]
fn alternation_scenario() {
    let nfa = compile_from_string("a|b").unwrap();
    assert!(nfa.simulate("a"));
    assert!(nfa.simulate("b"));
    assert!(!nfa.simulate("c"));
}

#[test]
fn closure_of_group_scenario() {
    let nfa = compile_from_string("(a.b)*").unwrap();
    assert!(nfa.simulate("abab"));
    assert!(!nfa.simulate("aba"));
}

#[test]
fn alternation_with_shared_first_symbol() {
    let nfa = compile_from_string("(a.b)|(a.c)").unwrap();
    assert!(nfa.simulate("ab"));
    assert!(nfa.simulate("ac"));
    assert!(!nfa.simulate("a"));
    assert!(!nfa.simulate("bc"));
}

#[test]
fn compiling_twice_accepts_the_same() {
    let first = compile_from_string("(a|b)*.c").unwrap();
    let second = compile_from_string("(a|b)*.c").unwrap();
    for input in ["", "c", "ac", "abbac", "ab", "ca", "cc"] {
        assert_eq!(first.simulate(input), second.simulate(input));
    }
    assert!(first.simulate("abbac"));
    assert!(!first.simulate("ab"));
}

#[test]
fn concatenation_is_associative() {
    let right = compile_from_string("a.(b.c)").unwrap();
    let left = compile_from_string("(a.b).c").unwrap();
    for input in ["", "a", "ab", "abc", "abcd", "bc", "acb", "abcabc"] {
        assert_eq!(right.simulate(input), left.simulate(input));
    }
    assert!(right.simulate("abc"));
    assert!(left.simulate("abc"));
}

#[test]
fn closure_repeats_accepted_strings() {
    let inner = compile_from_string("(a.b)|c").unwrap();
    let closed = compile_from_string("((a.b)|c)*").unwrap();
    for input in ["ab", "c"] {
        assert!(inner.simulate(input));
        let mut repeated = String::new();
        for _ in 0..4 {
            repeated.push_str(input);
            assert!(closed.simulate(&repeated));
        }
    }
    assert!(closed.simulate("abcab"));
    assert!(!closed.simulate("ac"));
}

#[test]
fn closure_accepts_the_empty_string() {
    for pattern in ["a*", "(a)*", "(a.b)*", "((a.b)|c)*", "(a|b)*.(c)*"] {
        let closed = compile_from_string(pattern).unwrap();
        assert!(closed.simulate(""), "{} should match the empty string", pattern);
    }
    let closed = compile_from_string("a*").unwrap();
    assert!(closed.simulate("a"));
    assert!(closed.simulate("aaa"));
    assert!(!closed.simulate("b"));
}

#[test]
fn empty_string_needs_every_part_to_match_it() {
    assert!(!compile_from_string("a.b*").unwrap().simulate(""));
    assert!(!compile_from_string("a*.b").unwrap().simulate(""));
    assert!(compile_from_string("a|b*").unwrap().simulate(""));
    assert!(!compile_from_string("a|b").unwrap().simulate(""));
    let tree = star(dot(Node::Terminal('a', 1), Node::Terminal('b', 2)));
    assert!(regex(&tree).simulate(""));
    assert!(!regex(&Node::Terminal('a', 1)).simulate(""));
}

#[test]
fn braces_match_themselves() {
    let nfa = compile_from_string("{.a*.}").unwrap();
    assert!(nfa.simulate("{}"));
    assert!(nfa.simulate("{aa}"));
    assert!(!nfa.simulate("{a"));
}

#[test]
fn malformed_patterns_give_errors() {
    assert!(matches!(compile_from_string("(a"), Err(ParseError::UnbalancedParentheses)));
    assert!(matches!(compile_from_string("a|"), Err(ParseError::MissingOperand)));
    assert!(matches!(compile_from_string(""), Err(ParseError::EmptyPattern)));
}
