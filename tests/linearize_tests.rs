use gregex::linearize::{
    infix_to_postfix, linearize, postfix_to_nodetree, precedence, string_to_infix, ParseError,
};
use gregex::node::Node;
use gregex::operator::Operator;

#[test]
fn test_infix_to_postfix() {
    assert_eq!(infix_to_postfix("a"), Ok(String::from("a")));
    assert_eq!(infix_to_postfix("a*"), Ok(String::from("a*")));
    assert_eq!(infix_to_postfix("a|b"), Ok(String::from("ab|")));
    assert_eq!(infix_to_postfix("(a.b)|b"), Ok(String::from("ab.b|")));
}

#[test]
fn test_postfix_to_nodetree() {
    assert_eq!(postfix_to_nodetree("a"), Ok(Node::Terminal('a', 1)));
    assert_eq!(
        postfix_to_nodetree("a*"),
        Ok(Node::Operation(Operator::Production, Box::new(Node::Terminal('a', 1)), None))
    );
    assert_eq!(
        postfix_to_nodetree("ab|"),
        Ok(Node::Operation(
            Operator::Or,
            Box::new(Node::Terminal('a', 1)),
            Some(Box::new(Node::Terminal('b', 2)))
        ))
    );
    assert_eq!(
        postfix_to_nodetree("ab|*"),
        Ok(Node::Operation(
            Operator::Production,
            Box::new(Node::Operation(
                Operator::Or,
                Box::new(Node::Terminal('a', 1)),
                Some(Box::new(Node::Terminal('b', 2)))
            )),
            None
        ))
    )
}

#[test]
fn infix_joins_adjacent_groups() {
    assert_eq!(string_to_infix("(a)(b)"), "(a).(b)");
    assert_eq!(string_to_infix("(a)(b)(c)"), "(a).(b).(c)");
    assert_eq!(string_to_infix("a.b"), "a.b");
    assert_eq!(string_to_infix(""), "");
}

#[test]
fn precedence_order() {
    assert_eq!(precedence(&'*'), 3);
    assert_eq!(precedence(&'|'), 2);
    assert_eq!(precedence(&'.'), 1);
    assert_eq!(precedence(&'a'), 0);
    assert_eq!(precedence(&'('), 0);
}

#[test]
fn postfix_binds_alternation_tighter_than_concatenation() {
    assert_eq!(infix_to_postfix("a.b|c"), Ok(String::from("abc|.")));
    assert_eq!(infix_to_postfix("a|b.c"), Ok(String::from("ab|c.")));
    assert_eq!(infix_to_postfix("a.b.c"), Ok(String::from("ab.c.")));
    assert_eq!(infix_to_postfix("a*|b*"), Ok(String::from("a*b*|")));
}

#[test]
fn linearize_numbers_terminals_in_order() {
    assert_eq!(
        linearize("(a)(b)"),
        Ok(Node::Operation(
            Operator::Concat,
            Box::new(Node::Terminal('a', 1)),
            Some(Box::new(Node::Terminal('b', 2)))
        ))
    );
    assert_eq!(
        linearize("a.a"),
        Ok(Node::Operation(
            Operator::Concat,
            Box::new(Node::Terminal('a', 1)),
            Some(Box::new(Node::Terminal('a', 2)))
        ))
    );
}

#[test]
fn unbalanced_parentheses_are_rejected() {
    assert_eq!(infix_to_postfix("(a"), Err(ParseError::UnbalancedParentheses));
    assert_eq!(infix_to_postfix("a)"), Err(ParseError::UnbalancedParentheses));
    assert_eq!(linearize("((a.b)"), Err(ParseError::UnbalancedParentheses));
    assert_eq!(linearize("(a.b))"), Err(ParseError::UnbalancedParentheses));
}

#[test]
fn missing_operands_are_rejected() {
    assert_eq!(postfix_to_nodetree("*"), Err(ParseError::MissingOperand));
    assert_eq!(postfix_to_nodetree("a|"), Err(ParseError::MissingOperand));
    assert_eq!(linearize("a|"), Err(ParseError::MissingOperand));
    assert_eq!(linearize(".b"), Err(ParseError::MissingOperand));
}

#[test]
fn leftover_operands_are_rejected() {
    assert_eq!(postfix_to_nodetree("ab"), Err(ParseError::MissingOperator));
    assert_eq!(linearize("ab"), Err(ParseError::MissingOperator));
}

#[test]
fn empty_pattern_is_rejected() {
    assert_eq!(postfix_to_nodetree(""), Err(ParseError::EmptyPattern));
    assert_eq!(linearize(""), Err(ParseError::EmptyPattern));
    assert_eq!(linearize("()"), Err(ParseError::EmptyPattern));
}

#[test]
fn braces_are_literals() {
    assert_eq!(infix_to_postfix("a.{"), Ok(String::from("a{.")));
    assert_eq!(infix_to_postfix("{|}"), Ok(String::from("{}|")));
    assert_eq!(linearize("{"), Ok(Node::Terminal('{', 1)));
    assert_eq!(
        linearize("{.}"),
        Ok(Node::Operation(
            Operator::Concat,
            Box::new(Node::Terminal('{', 1)),
            Some(Box::new(Node::Terminal('}', 2)))
        ))
    );
}
