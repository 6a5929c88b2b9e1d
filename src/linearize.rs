//! Parsing a pattern: the infix text is turned into postfix by operator
//! precedence, and the postfix text is folded into an expression tree whose
//! terminals are numbered from one, in order.
use vstd::prelude::*;

use crate::node::Node;
use crate::operator::Operator;
use crate::seqs::lemma_take_all;
use crate::text::{chars_of, string_of};

verus! {

/// Why a pattern could not be parsed.
#[derive(Debug, Clone, Copy, PartialEq, Eq, Structural)]
pub enum ParseError {
    /// A `)` without a matching `(`, or a `(` that is never closed.
    UnbalancedParentheses,
    /// An operator without enough operands before it.
    MissingOperand,
    /// Operands left over with no operator to join them.
    MissingOperator,
    /// Nothing to match.
    EmptyPattern,
    /// More terminals than positions can number.
    TooManyTerminals,
}

/// The pattern with `.` written between every `)` and the `(` right after it.
pub open spec fn infix_spec(s: Seq<char>) -> Seq<char>
    decreases s.len(),
{
    if s.len() == 0 {
        s
    } else {
        let before = infix_spec(s.drop_last());
        if s.last() == '(' && s.len() >= 2 && s[s.len() - 2] == ')' {
            before.push('.').push('(')
        } else {
            before.push(s.last())
        }
    }
}

/// The binding strength of an operator; zero for anything else.
pub open spec fn precedence_spec(c: char) -> u8 {
    if c == '*' {
        3
    } else if c == '|' {
        2
    } else if c == '.' {
        1
    } else {
        0
    }
}

pub open spec fn is_operator(c: char) -> bool {
    c == '*' || c == '|' || c == '.'
}

/// Moves from the top of the stack to the output every operator that binds
/// at least as strongly as `c`.
pub open spec fn pop_ops(stack: Seq<char>, out: Seq<char>, c: char) -> (Seq<char>, Seq<char>)
    decreases stack.len(),
{
    if stack.len() > 0 && precedence_spec(c) <= precedence_spec(stack.last()) {
        pop_ops(stack.drop_last(), out.push(stack.last()), c)
    } else {
        (stack, out)
    }
}

/// Moves operators to the output down to the nearest `(`, which is dropped.
pub open spec fn close_group(stack: Seq<char>, out: Seq<char>) -> Result<
    (Seq<char>, Seq<char>),
    ParseError,
>
    decreases stack.len(),
{
    if stack.len() == 0 {
        Err(ParseError::UnbalancedParentheses)
    } else if stack.last() == '(' {
        Ok((stack.drop_last(), out))
    } else {
        close_group(stack.drop_last(), out.push(stack.last()))
    }
}

/// One symbol of the infix text: the operator stack and the output after it.
pub open spec fn shunt_step(stack: Seq<char>, out: Seq<char>, c: char) -> Result<
    (Seq<char>, Seq<char>),
    ParseError,
> {
    if c == '(' {
        Ok((stack.push(c), out))
    } else if c == ')' {
        close_group(stack, out)
    } else if is_operator(c) {
        let (rest, moved) = pop_ops(stack, out, c);
        Ok((rest.push(c), moved))
    } else {
        Ok((stack, out.push(c)))
    }
}

/// The operator stack and output after all of `s`.
pub open spec fn shunt(s: Seq<char>) -> Result<(Seq<char>, Seq<char>), ParseError>
    decreases s.len(),
{
    if s.len() == 0 {
        Ok((Seq::empty(), Seq::empty()))
    } else {
        match shunt(s.drop_last()) {
            Ok((stack, out)) => shunt_step(stack, out, s.last()),
            Err(e) => Err(e),
        }
    }
}

/// Moves what is left on the stack to the output; a `(` there was never closed.
pub open spec fn flush(stack: Seq<char>, out: Seq<char>) -> Result<Seq<char>, ParseError>
    decreases stack.len(),
{
    if stack.len() == 0 {
        Ok(out)
    } else if stack.last() == '(' {
        Err(ParseError::UnbalancedParentheses)
    } else {
        flush(stack.drop_last(), out.push(stack.last()))
    }
}

/// The postfix form of an infix text.
pub open spec fn postfix_spec(s: Seq<char>) -> Result<Seq<char>, ParseError> {
    match shunt(s) {
        Ok((stack, out)) => flush(stack, out),
        Err(e) => Err(e),
    }
}

/// The number of terminals in a postfix text.
pub open spec fn literal_count(s: Seq<char>) -> nat
    decreases s.len(),
{
    if s.len() == 0 {
        0
    } else {
        literal_count(s.drop_last()) + if is_operator(s.last()) {
            0nat
        } else {
            1nat
        }
    }
}

/// One symbol of the postfix text applied to the stack of trees; `count`
/// terminals came before it.
pub open spec fn apply(stack: Seq<Node>, c: char, count: nat) -> Result<Seq<Node>, ParseError> {
    if c == '*' {
        if stack.len() < 1 {
            Err(ParseError::MissingOperand)
        } else {
            Ok(
                stack.drop_last().push(
                    Node::Operation(Operator::Production, Box::new(stack.last()), None),
                ),
            )
        }
    } else if c == '|' || c == '.' {
        if stack.len() < 2 {
            Err(ParseError::MissingOperand)
        } else {
            let op = if c == '|' {
                Operator::Or
            } else {
                Operator::Concat
            };
            Ok(
                stack.take(stack.len() - 2).push(
                    Node::Operation(
                        op,
                        Box::new(stack[stack.len() - 2]),
                        Some(Box::new(stack.last())),
                    ),
                ),
            )
        }
    } else if count >= u32::MAX {
        Err(ParseError::TooManyTerminals)
    } else {
        Ok(stack.push(Node::Terminal(c, (count + 1) as u32)))
    }
}

/// The stack of trees after all of the postfix text `s`.
pub open spec fn build(s: Seq<char>) -> Result<Seq<Node>, ParseError>
    decreases s.len(),
{
    if s.len() == 0 {
        Ok(Seq::empty())
    } else {
        match build(s.drop_last()) {
            Ok(stack) => apply(stack, s.last(), literal_count(s.drop_last())),
            Err(e) => Err(e),
        }
    }
}

/// The tree of a postfix text: the one tree left on the stack.
pub open spec fn tree_of(s: Seq<char>) -> Result<Node, ParseError> {
    match build(s) {
        Ok(stack) => if stack.len() == 1 {
            Ok(stack[0])
        } else if stack.len() == 0 {
            Err(ParseError::EmptyPattern)
        } else {
            Err(ParseError::MissingOperator)
        },
        Err(e) => Err(e),
    }
}

/// The tree of a pattern.
pub open spec fn parse(s: Seq<char>) -> Result<Node, ParseError> {
    match postfix_spec(infix_spec(s)) {
        Ok(p) => tree_of(p),
        Err(e) => Err(e),
    }
}

/// Writes `.` between every `)` and the `(` right after it, so that adjacent
/// groups are concatenated.
pub fn string_to_infix(input: &str) -> (r: String)
    ensures
        r@ == infix_spec(input@),
{
    let chars = chars_of(input);
    let mut out: Vec<char> = Vec::new();
    let mut i: usize = 0;
    while i < chars.len()
        invariant
            i <= chars.len(),
            out@ == infix_spec(chars@.take(i as int)),
        decreases chars.len() - i,
    {
        let c = chars[i];
        if c == '(' && i > 0 && chars[i - 1] == ')' {
            out.push('.');
        }
        out.push(c);
        proof {
            let w = chars@.take(i + 1);
            assert(w.drop_last() == chars@.take(i as int));
            assert(w.last() == c);
            if i > 0 {
                assert(w[w.len() - 2] == chars@[i - 1]);
            }
        }
        i = i + 1;
    }
    proof {
        lemma_take_all(chars@);
    }
    string_of(&out)
}

/// The binding strength of an operator: `*` binds tightest, then `|`, then `.`.
pub fn precedence(c: &char) -> (r: u8)
    ensures
        r == precedence_spec(*c),
{
    match *c {
        '*' => 3,
        '|' => 2,
        '.' => 1,
        _ => 0,
    }
}

/// A string result seen as characters.
pub open spec fn chars_result(r: Result<String, ParseError>) -> Result<Seq<char>, ParseError> {
    match r {
        Ok(s) => Ok(s@),
        Err(e) => Err(e),
    }
}

/// Once the conversion of a prefix fails, the conversion of the whole fails alike.
proof fn lemma_shunt_error(s: Seq<char>, k: int)
    requires
        0 <= k <= s.len(),
        shunt(s.take(k)) is Err,
    ensures
        shunt(s) == shunt(s.take(k)),
    decreases s.len(),
{
    if k < s.len() {
        assert(s.drop_last().take(k) == s.take(k));
        lemma_shunt_error(s.drop_last(), k);
    } else {
        assert(s.take(k) == s);
    }
}

/// Converts infix text to postfix by operator precedence: terminals go
/// straight to the output, operators wait on a stack until one that binds no
/// more strongly arrives, and parentheses delimit groups.
pub fn infix_to_postfix(infix: &str) -> (r: Result<String, ParseError>)
    ensures
        chars_result(r) == postfix_spec(infix@),
{
    let chars = chars_of(infix);
    let mut stack: Vec<char> = Vec::new();
    let mut postfix: Vec<char> = Vec::new();
    let mut i: usize = 0;
    proof {
        assert(chars@.take(0) =~= Seq::<char>::empty());
    }
    while i < chars.len()
        invariant
            i <= chars.len(),
            chars@ == infix@,
            shunt(chars@.take(i as int)) == Ok::<(Seq<char>, Seq<char>), ParseError>(
                (stack@, postfix@),
            ),
        decreases chars.len() - i,
    {
        let c = chars[i];
        let ghost w = chars@.take(i + 1);
        proof {
            assert(w.drop_last() == chars@.take(i as int));
            assert(w.last() == c);
        }
        if c == '(' {
            stack.push(c);
        } else if c == ')' {
            let ghost target = close_group(stack@, postfix@);
            loop
                invariant_except_break
                    close_group(stack@, postfix@) == target,
                invariant
                    i < chars.len(),
                    chars@ == infix@,
                    target == shunt(chars@.take(i + 1)),
                ensures
                    target == Ok::<(Seq<char>, Seq<char>), ParseError>((stack@, postfix@)),
                decreases stack.len(),
            {
                if stack.len() == 0 {
                    proof {
                        lemma_shunt_error(chars@, i + 1);
                    }
                    return Err(ParseError::UnbalancedParentheses);
                }
                let top = stack.pop().unwrap();
                if top == '(' {
                    break;
                }
                postfix.push(top);
            }
        } else if c == '*' || c == '|' || c == '.' {
            let ghost target = pop_ops(stack@, postfix@, c);
            while stack.len() > 0 && precedence(&c) <= precedence(&stack[stack.len() - 1])
                invariant
                    pop_ops(stack@, postfix@, c) == target,
                decreases stack.len(),
            {
                let top = stack.pop().unwrap();
                postfix.push(top);
            }
            stack.push(c);
        } else {
            postfix.push(c);
        }
        i = i + 1;
    }
    proof {
        lemma_take_all(chars@);
    }
    let ghost target = flush(stack@, postfix@);
    while stack.len() > 0
        invariant
            flush(stack@, postfix@) == target,
            target == postfix_spec(infix@),
        decreases stack.len(),
    {
        let top = stack.pop().unwrap();
        if top == '(' {
            return Err(ParseError::UnbalancedParentheses);
        }
        postfix.push(top);
    }
    Ok(string_of(&postfix))
}

/// Once the fold of a prefix fails, the fold of the whole fails alike.
proof fn lemma_build_error(s: Seq<char>, k: int)
    requires
        0 <= k <= s.len(),
        build(s.take(k)) is Err,
    ensures
        build(s) == build(s.take(k)),
    decreases s.len(),
{
    if k < s.len() {
        assert(s.drop_last().take(k) == s.take(k));
        lemma_build_error(s.drop_last(), k);
    } else {
        assert(s.take(k) == s);
    }
}

/// Every tree on a stack is well formed, with no terminal at position `0`.
pub open spec fn all_wf(stack: Seq<Node>) -> bool {
    forall|j: int| 0 <= j < stack.len() ==> (#[trigger] stack[j]).wf() && stack[j].positions_nonzero()
}

proof fn lemma_apply_wf(stack: Seq<Node>, c: char, k: nat)
    requires
        all_wf(stack),
    ensures
        apply(stack, c, k) matches Ok(after) ==> all_wf(after),
{
    if let Ok(after) = apply(stack, c, k) {
        let n = stack.len();
        if c == '*' {
            assert(stack[n - 1].wf() && stack[n - 1].positions_nonzero());
            assert forall|j: int| 0 <= j < after.len() implies (#[trigger] after[j]).wf() && after[j].positions_nonzero() by {
                if j < n - 1 {
                    assert(after[j] == stack[j]);
                }
            }
        } else if c == '|' || c == '.' {
            assert(stack[n - 2].wf());
            assert(stack[n - 1].wf() && stack[n - 1].positions_nonzero());
            assert forall|j: int| 0 <= j < after.len() implies (#[trigger] after[j]).wf() && after[j].positions_nonzero() by {
                if j < n - 2 {
                    assert(after[j] == stack[j]);
                }
            }
        } else {
            assert forall|j: int| 0 <= j < after.len() implies (#[trigger] after[j]).wf() && after[j].positions_nonzero() by {
                if j < n {
                    assert(after[j] == stack[j]);
                }
            }
        }
    }
}

/// Every tree on the stack is well formed.
pub proof fn lemma_build_wf(s: Seq<char>)
    ensures
        build(s) matches Ok(stack) ==> all_wf(stack),
    decreases s.len(),
{
    if s.len() > 0 {
        lemma_build_wf(s.drop_last());
        if let Ok(before) = build(s.drop_last()) {
            lemma_apply_wf(before, s.last(), literal_count(s.drop_last()));
        }
    }
}

/// The positions of the trees on a stack, from the bottom up.
pub open spec fn stack_positions(stack: Seq<Node>) -> Seq<u32>
    decreases stack.len(),
{
    if stack.len() == 0 {
        Seq::empty()
    } else {
        stack_positions(stack.drop_last()) + stack.last().positions()
    }
}

/// The positions `1, 2, ..., n`.
pub open spec fn numbered(n: nat) -> Seq<u32> {
    Seq::new(n, |i: int| (i + 1) as u32)
}

proof fn lemma_apply_positions(stack: Seq<Node>, c: char, k: nat)
    requires
        stack_positions(stack) == numbered(k),
    ensures
        apply(stack, c, k) matches Ok(after) ==> stack_positions(after) == numbered(
            k + if is_operator(c) {
                0nat
            } else {
                1nat
            },
        ),
{
    if let Ok(after) = apply(stack, c, k) {
        let n = stack.len();
        if c == '*' {
            let wrapped = Node::Operation(Operator::Production, Box::new(stack[n - 1]), None);
            assert(after == stack.drop_last().push(wrapped));
            assert(after.drop_last() == stack.drop_last());
            assert(wrapped.positions() =~= stack[n - 1].positions());
            assert(stack_positions(after) == stack_positions(stack));
        } else if c == '|' || c == '.' {
            let op = if c == '|' {
                Operator::Or
            } else {
                Operator::Concat
            };
            let joined = Node::Operation(op, Box::new(stack[n - 2]), Some(Box::new(stack[n - 1])));
            assert(after == stack.take(n - 2).push(joined));
            assert(after.drop_last() == stack.drop_last().drop_last());
            assert(joined.positions() == stack[n - 2].positions() + stack[n - 1].positions());
            assert(stack.drop_last().last() == stack[n - 2]);
            assert(stack_positions(stack.drop_last()) == stack_positions(
                stack.drop_last().drop_last(),
            ) + stack[n - 2].positions());
            assert(stack_positions(stack) == stack_positions(stack.drop_last()) + stack[n
                - 1].positions());
            assert(stack_positions(stack) =~= stack_positions(stack.drop_last().drop_last())
                + stack[n - 2].positions() + stack[n - 1].positions());
            assert(stack_positions(after) =~= stack_positions(stack));
        } else {
            let leaf = Node::Terminal(c, (k + 1) as u32);
            assert(after == stack.push(leaf));
            assert(after.drop_last() == stack);
            assert(leaf.positions() == seq![(k + 1) as u32]);
            assert(stack_positions(after) =~= numbered(k + 1));
        }
    }
}

/// The terminals on the stack are numbered `1, 2, ...` from the bottom up.
pub proof fn lemma_build_positions(s: Seq<char>)
    ensures
        build(s) matches Ok(stack) ==> stack_positions(stack) == numbered(literal_count(s))
            && literal_count(s) <= u32::MAX,
    decreases s.len(),
{
    if s.len() == 0 {
        assert(numbered(0) =~= Seq::<u32>::empty());
    } else {
        lemma_build_positions(s.drop_last());
        if let Ok(before) = build(s.drop_last()) {
            lemma_apply_positions(before, s.last(), literal_count(s.drop_last()));
        }
    }
}

/// A parsed tree is well formed and numbers its terminals `1, 2, ..., n`
/// from left to right, so no terminal has position `0`.
pub proof fn lemma_parse_numbered(s: Seq<char>)
    ensures
        parse(s) matches Ok(t) ==> t.wf() && t.positions_nonzero() && t.positions() == numbered(
            t.positions().len(),
        ) && t.positions().len() <= u32::MAX,
{
    if let Ok(p) = postfix_spec(infix_spec(s)) {
        lemma_build_wf(p);
        lemma_build_positions(p);
        if let Ok(stack) = build(p) {
            if stack.len() == 1 {
                assert(stack.drop_last() =~= Seq::<Node>::empty());
                assert(stack_positions(stack.drop_last()) == Seq::<u32>::empty());
                assert(stack_positions(stack) =~= stack[0].positions());
            }
        }
    }
}

/// Joining two texts adds no `.` where the first does not end in `)` or the
/// second does not begin with `(`.
proof fn lemma_infix_append(pre: Seq<char>, s: Seq<char>)
    requires
        pre.len() == 0 || s.len() == 0 || pre.last() != ')' || s[0] != '(',
    ensures
        infix_spec(pre + s) == infix_spec(pre) + infix_spec(s),
    decreases s.len(),
{
    if s.len() == 0 {
        assert(pre + s =~= pre);
        assert(infix_spec(pre) + infix_spec(s) =~= infix_spec(pre));
    } else {
        lemma_infix_append(pre, s.drop_last());
        let whole = pre + s;
        assert(whole.drop_last() =~= pre + s.drop_last());
        assert(whole.last() == s.last());
        if s.len() >= 2 {
            assert(whole[whole.len() - 2] == s[s.len() - 2]);
        } else if pre.len() > 0 {
            assert(whole[whole.len() - 2] == pre.last());
            assert(s.last() == s[0]);
        }
        let a = infix_spec(pre);
        let b = infix_spec(s.drop_last());
        assert((a + b).push(s.last()) =~= a + b.push(s.last()));
        assert((a + b).push('.').push('(') =~= a + b.push('.').push('('));
    }
}

/// Below a `(`, moving operators to the output leaves the stack untouched.
proof fn lemma_pop_ops_base(base: Seq<char>, stack: Seq<char>, out: Seq<char>, c: char)
    requires
        base.len() > 0,
        base.last() == '(',
        is_operator(c),
    ensures
        pop_ops(base + stack, out, c) == (base + pop_ops(stack, out, c).0, pop_ops(stack, out, c).1),
    decreases stack.len(),
{
    if stack.len() > 0 {
        assert((base + stack).drop_last() =~= base + stack.drop_last());
        assert((base + stack).last() == stack.last());
        lemma_pop_ops_base(base, stack.drop_last(), out.push(stack.last()), c);
    } else {
        assert(base + stack =~= base);
    }
}

/// Closing a group that lies above a `(` stops at the nearest one.
proof fn lemma_close_group_base(base: Seq<char>, stack: Seq<char>, out: Seq<char>)
    requires
        base.len() > 0,
        base.last() == '(',
    ensures
        close_group(stack, out) matches Ok((rest, moved)) ==> close_group(base + stack, out) == Ok::<
            (Seq<char>, Seq<char>),
            ParseError,
        >((base + rest, moved)),
    decreases stack.len(),
{
    if stack.len() > 0 {
        assert((base + stack).drop_last() =~= base + stack.drop_last());
        assert((base + stack).last() == stack.last());
        lemma_close_group_base(base, stack.drop_last(), out.push(stack.last()));
    }
}

/// A text read after an opening `(` leaves that `(` at the bottom of the stack.
proof fn lemma_shunt_group(s: Seq<char>)
    ensures
        shunt(s) matches Ok((stack, out)) ==> shunt(seq!['('] + s) == Ok::<
            (Seq<char>, Seq<char>),
            ParseError,
        >((seq!['('] + stack, out)),
    decreases s.len(),
{
    let open = seq!['('];
    if s.len() == 0 {
        assert(open + s =~= open);
        assert(open.drop_last() =~= Seq::<char>::empty());
        assert(open.last() == '(');
        assert(shunt(Seq::<char>::empty()) == Ok::<(Seq<char>, Seq<char>), ParseError>(
            (Seq::<char>::empty(), Seq::<char>::empty()),
        ));
        assert(Seq::<char>::empty().push('(') =~= open + Seq::<char>::empty());
        assert(shunt(open) == Ok::<(Seq<char>, Seq<char>), ParseError>(
            (open + Seq::<char>::empty(), Seq::<char>::empty()),
        ));
    } else {
        lemma_shunt_group(s.drop_last());
        assert((open + s).drop_last() =~= open + s.drop_last());
        assert((open + s).last() == s.last());
        let c = s.last();
        if let Ok((stack, out)) = shunt(s.drop_last()) {
            if c == '(' {
                assert((open + stack).push(c) =~= open + stack.push(c));
            } else if c == ')' {
                lemma_close_group_base(open, stack, out);
            } else if is_operator(c) {
                lemma_pop_ops_base(open, stack, out, c);
                let (rest, moved) = pop_ops(stack, out, c);
                assert((open + rest).push(c) =~= open + rest.push(c));
            }
        }
    }
}

/// Closing the outer group moves what is left of the stack to the output,
/// as the end of the text would.
proof fn lemma_close_outer(stack: Seq<char>, out: Seq<char>)
    ensures
        flush(stack, out) matches Ok(o) ==> close_group(seq!['('] + stack, out) == Ok::<
            (Seq<char>, Seq<char>),
            ParseError,
        >((Seq::empty(), o)),
    decreases stack.len(),
{
    let open = seq!['('];
    if stack.len() > 0 {
        assert((open + stack).drop_last() =~= open + stack.drop_last());
        assert((open + stack).last() == stack.last());
        lemma_close_outer(stack.drop_last(), out.push(stack.last()));
    } else {
        assert(open + stack =~= open);
        assert(open.drop_last() =~= Seq::<char>::empty());
    }
}

/// The pattern `(p)*` parses to the closure of the tree of `p`.
pub proof fn lemma_parse_closure(p: Seq<char>)
    ensures
        parse(p) matches Ok(t) ==> parse(seq!['('] + p + seq![')', '*']) == Ok::<Node, ParseError>(
            Node::Operation(Operator::Production, Box::new(t), None),
        ),
{
    if let Ok(t) = parse(p) {
        let open = seq!['('];
        let close = seq![')', '*'];
        let q = open + p + close;
        let i = infix_spec(p);
        // The infix text of `(p)*` is `(`, that of `p`, then `)*`.
        lemma_infix_append(open, p);
        lemma_infix_append(open + p, close);
        assert(open.drop_last() =~= Seq::<char>::empty());
        assert(open.last() == '(');
        assert(infix_spec(Seq::<char>::empty()) == Seq::<char>::empty());
        assert(infix_spec(open) =~= open);
        assert(close.drop_last() =~= seq![')']);
        assert(seq![')'].drop_last() =~= Seq::<char>::empty());
        assert(infix_spec(seq![')']) =~= seq![')']);
        assert(infix_spec(close) =~= close);
        let qi = open + i + close;
        assert(infix_spec(q) == qi);
        // Its postfix text is that of `p` followed by `*`.
        let (stack, out) = shunt(i)->Ok_0;
        let x = flush(stack, out)->Ok_0;
        lemma_shunt_group(i);
        lemma_close_outer(stack, out);
        assert(qi.drop_last() =~= (open + i).push(')'));
        assert(qi.drop_last().drop_last() =~= open + i);
        assert(shunt((open + i).push(')')) == close_group(open + stack, out));
        assert(shunt(qi) == shunt_step(Seq::empty(), x, '*'));
        assert(shunt(qi) == Ok::<(Seq<char>, Seq<char>), ParseError>((seq!['*'], x)));
        assert(seq!['*'].drop_last() =~= Seq::<char>::empty());
        assert(seq!['*'].last() == '*');
        assert(flush(Seq::<char>::empty(), x.push('*')) == Ok::<Seq<char>, ParseError>(x.push('*')));
        assert(flush(seq!['*'], x) == Ok::<Seq<char>, ParseError>(x.push('*')));
        assert(postfix_spec(qi) == Ok::<Seq<char>, ParseError>(x.push('*')));
        // Its tree is the closure of the tree of `p`.
        assert(x.push('*').drop_last() =~= x);
        let st = build(x)->Ok_0;
        assert(st.drop_last().push(Node::Operation(Operator::Production, Box::new(st.last()), None))
            =~= seq![Node::Operation(Operator::Production, Box::new(t), None)]);
    }
}

/// Folds postfix text into a tree: a terminal is pushed with the next
/// position, counting from one; `*` wraps the top tree in a closure; `|` and
/// `.` join the top two trees, the lower one on the left.
pub fn postfix_to_nodetree(postfix: &str) -> (r: Result<Node, ParseError>)
    ensures
        r == tree_of(postfix@),
        r matches Ok(t) ==> t.wf() && t.positions_nonzero() && t.positions() == numbered(
            t.positions().len(),
        ) && t.positions().len() <= u32::MAX,
{
    let chars = chars_of(postfix);
    let mut stack: Vec<Node> = Vec::new();
    let mut count: u32 = 0;
    let mut i: usize = 0;
    proof {
        assert(chars@.take(0) =~= Seq::<char>::empty());
    }
    while i < chars.len()
        invariant
            i <= chars.len(),
            chars@ == postfix@,
            build(chars@.take(i as int)) == Ok::<Seq<Node>, ParseError>(stack@),
            count == literal_count(chars@.take(i as int)),
        decreases chars.len() - i,
    {
        let c = chars[i];
        let ghost w = chars@.take(i + 1);
        proof {
            assert(w.drop_last() == chars@.take(i as int));
            assert(w.last() == c);
        }
        if c == '*' {
            if stack.len() < 1 {
                proof {
                    lemma_build_error(chars@, i + 1);
                }
                return Err(ParseError::MissingOperand);
            }
            let child = stack.pop().unwrap();
            stack.push(Node::Operation(Operator::Production, Box::new(child), None));
        } else if c == '|' || c == '.' {
            if stack.len() < 2 {
                proof {
                    lemma_build_error(chars@, i + 1);
                }
                return Err(ParseError::MissingOperand);
            }
            let ghost before = stack@;
            let right = stack.pop().unwrap();
            let left = stack.pop().unwrap();
            let op = if c == '|' {
                Operator::Or
            } else {
                Operator::Concat
            };
            stack.push(Node::Operation(op, Box::new(left), Some(Box::new(right))));
            proof {
                assert(stack@ == before.take(before.len() - 2).push(
                    Node::Operation(op, Box::new(before[before.len() - 2]), Some(Box::new(before.last()))),
                ));
            }
        } else {
            if count == u32::MAX {
                proof {
                    lemma_build_error(chars@, i + 1);
                }
                return Err(ParseError::TooManyTerminals);
            }
            count = count + 1;
            stack.push(Node::Terminal(c, count));
        }
        i = i + 1;
    }
    proof {
        lemma_take_all(chars@);
        lemma_build_wf(chars@);
        lemma_build_positions(chars@);
        if stack@.len() == 1 {
            assert(stack@.drop_last() =~= Seq::<Node>::empty());
            assert(stack_positions(stack@.drop_last()) == Seq::<u32>::empty());
            assert(stack_positions(stack@) =~= stack@[0].positions());
        }
    }
    if stack.len() == 1 {
        Ok(stack.pop().unwrap())
    } else if stack.len() == 0 {
        Err(ParseError::EmptyPattern)
    } else {
        Err(ParseError::MissingOperator)
    }
}

/// Parses a pattern into an expression tree: adjacent groups are joined by
/// `.`, the text is put in postfix order, and the postfix text is folded into
/// a tree whose terminals are numbered from one.
pub fn linearize(input: &str) -> (r: Result<Node, ParseError>)
    ensures
        r == parse(input@),
        r matches Ok(t) ==> t.wf() && t.positions_nonzero() && t.positions() == numbered(
            t.positions().len(),
        ) && t.positions().len() <= u32::MAX,
{
    let infix = string_to_infix(input);
    match infix_to_postfix(infix.as_str()) {
        Ok(postfix) => postfix_to_nodetree(postfix.as_str()),
        Err(e) => Err(e),
    }
}

} // verus!
