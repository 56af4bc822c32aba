//! The expression builder: tokenize infix text on the six marker characters
//! and assemble a binary tree with two stacks (shunting-yard).

use vstd::prelude::*;
use vstd::string::StrSliceExecFns;

use crate::rolling::{
    operand_spec, operator_of, precedence_of, Element, Expression, Operand, Operator, ParseError,
};

verus! {

/// The six characters that separate tokens: the four operators and the
/// parentheses.
pub open spec fn is_marker(c: char) -> bool {
    c == '+' || c == '-' || c == '*' || c == '/' || c == '(' || c == ')'
}

/// Move operators from the symbol stack to the output stack, wrapping each
/// as an operator element, until the stack is empty, a `(` is on top, or —
/// when a precedence limit is given — the top binds no more strongly than
/// the limit. Ties stop the move, which is what makes equal-precedence
/// operators group to the right.
pub open spec fn shuffle_spec(ops: Seq<char>, elems: Seq<Element>, limit: Option<u32>) -> (Seq<
    char,
>, Seq<Element>)
    decreases ops.len(),
{
    if ops.len() == 0 {
        (ops, elems)
    } else if ops.last() == '(' {
        (ops, elems)
    } else if (match limit {
        Some(p) => precedence_of(ops.last()) <= p,
        None => false,
    }) {
        (ops, elems)
    } else {
        shuffle_spec(
            ops.drop_last(),
            elems.push(Element::OperatorEl(operator_of(ops.last()))),
            limit,
        )
    }
}

/// What pushing an operator symbol does to the two stacks: a `(` goes on
/// directly; any other symbol first moves the more strongly binding
/// operators to the output stack, then goes on itself.
pub open spec fn push_operator_spec(c: char, ops: Seq<char>, elems: Seq<Element>) -> (Seq<char>,
Seq<Element>) {
    if c == '(' {
        (ops.push(c), elems)
    } else {
        let (o, e) = shuffle_spec(ops, elems, Some(precedence_of(c)));
        (o.push(c), e)
    }
}

/// What a `)` does: move operators to the output stack until a `(` appears,
/// and discard it; an emptied stack means the parentheses were unbalanced.
pub open spec fn close_paren_spec(ops: Seq<char>, elems: Seq<Element>) -> Result<
    (Seq<char>, Seq<Element>),
    ParseError,
> {
    let (o, e) = shuffle_spec(ops, elems, None);
    if o.len() == 0 {
        Err(ParseError::UnbalancedParentheses)
    } else {
        Ok((o.drop_last(), e))
    }
}

/// What an operand token does to the output stack: an empty token is
/// skipped, anything else must parse as an operand and is pushed.
pub open spec fn push_operand_spec(tok: Seq<char>, elems: Seq<Element>) -> Result<
    Seq<Element>,
    ParseError,
> {
    if tok.len() == 0 {
        Ok(elems)
    } else {
        match operand_spec(tok) {
            Ok(o) => Ok(elems.push(Element::OperandEl(o))),
            Err(e) => Err(e),
        }
    }
}

/// One left-to-right pass over the input from position `i`, with `last` just
/// past the previous marker: at each marker the text since `last` is an
/// operand token, then the marker itself acts on the stacks.
pub open spec fn build_loop_spec(
    s: Seq<char>,
    i: int,
    last: int,
    ops: Seq<char>,
    elems: Seq<Element>,
) -> Result<(int, Seq<char>, Seq<Element>), ParseError>
    decreases s.len() - i,
{
    if i >= s.len() {
        Ok((last, ops, elems))
    } else if !is_marker(s[i]) {
        build_loop_spec(s, i + 1, last, ops, elems)
    } else {
        match push_operand_spec(s.subrange(last, i), elems) {
            Err(e) => Err(e),
            Ok(e1) => {
                if s[i] == ')' {
                    match close_paren_spec(ops, e1) {
                        Err(e) => Err(e),
                        Ok((o2, e2)) => build_loop_spec(s, i + 1, i + 1, o2, e2),
                    }
                } else {
                    let (o2, e2) = push_operator_spec(s[i], ops, e1);
                    build_loop_spec(s, i + 1, i + 1, o2, e2)
                }
            },
        }
    }
}

/// Build a tree from the top of the output stack, with fuel to bound the
/// recursion: an operand becomes a leaf; an operator takes its right
/// subtree from the stack first, then its left.
pub open spec fn from_stack_rec(st: Seq<Element>, fuel: nat) -> (Option<Expression>, Seq<Element>)
    decreases fuel,
{
    if st.len() == 0 || fuel == 0 {
        (None, st)
    } else {
        let el = st.last();
        let rest = st.drop_last();
        match el {
            Element::OperandEl(_) => (
                Some(Expression { element: el, right: None, left: None }),
                rest,
            ),
            Element::OperatorEl(_) => {
                let (r, st1) = from_stack_rec(rest, (fuel - 1) as nat);
                let (l, st2) = from_stack_rec(st1, (fuel - 1) as nat);
                (
                    Some(
                        Expression {
                            element: el,
                            right: match r {
                                Some(x) => Some(Box::new(x)),
                                None => None,
                            },
                            left: match l {
                                Some(x) => Some(Box::new(x)),
                                None => None,
                            },
                        },
                    ),
                    st2,
                )
            },
        }
    }
}

/// Building from a stack consumes no more elements than it has.
pub proof fn lemma_from_stack_len(st: Seq<Element>, fuel: nat)
    ensures
        from_stack_rec(st, fuel).1.len() <= st.len(),
    decreases fuel,
{
    if st.len() == 0 || fuel == 0 {
    } else {
        let rest = st.drop_last();
        match st.last() {
            Element::OperandEl(_) => {},
            Element::OperatorEl(_) => {
                lemma_from_stack_len(rest, (fuel - 1) as nat);
                let (r, st1) = from_stack_rec(rest, (fuel - 1) as nat);
                lemma_from_stack_len(st1, (fuel - 1) as nat);
            },
        }
    }
}

/// Any fuel at least the stack's length gives the same result.
pub proof fn lemma_from_stack_fuel(st: Seq<Element>, f1: nat, f2: nat)
    requires
        f1 >= st.len(),
        f2 >= st.len(),
    ensures
        from_stack_rec(st, f1) == from_stack_rec(st, f2),
    decreases f1,
{
    if st.len() == 0 {
    } else {
        let rest = st.drop_last();
        match st.last() {
            Element::OperandEl(_) => {},
            Element::OperatorEl(_) => {
                lemma_from_stack_fuel(rest, (f1 - 1) as nat, (f2 - 1) as nat);
                let (r, st1) = from_stack_rec(rest, (f1 - 1) as nat);
                lemma_from_stack_len(rest, (f1 - 1) as nat);
                lemma_from_stack_fuel(st1, (f1 - 1) as nat, (f2 - 1) as nat);
            },
        }
    }
}

/// Build a tree from the top of the output stack; what is below the consumed
/// part stays on the stack.
pub open spec fn from_stack_spec(st: Seq<Element>) -> (Option<Expression>, Seq<Element>) {
    from_stack_rec(st, st.len())
}

/// What building from a whole input returns, starting from given stacks:
/// the scan, the trailing operand token, a full flush of the symbol stack —
/// on which a leftover `(` means unbalanced parentheses — and the tree
/// construction; an empty output stack means there was no expression.
pub open spec fn build_spec(s: Seq<char>, ops0: Seq<char>, elems0: Seq<Element>) -> Result<
    Expression,
    ParseError,
> {
    match build_loop_spec(s, 0, 0, ops0, elems0) {
        Err(e) => Err(e),
        Ok((last, ops, elems)) => match push_operand_spec(s.skip(last), elems) {
            Err(e) => Err(e),
            Ok(e1) => {
                let (o2, e2) = shuffle_spec(ops, e1, None);
                if o2.len() > 0 {
                    Err(ParseError::UnbalancedParentheses)
                } else {
                    match from_stack_spec(e2).0 {
                        Some(t) => Ok(t),
                        None => Err(ParseError::EmptyExpression),
                    }
                }
            },
        },
    }
}

/// What parsing an input returns: building with both stacks empty.
pub open spec fn parse_spec(s: Seq<char>) -> Result<Expression, ParseError> {
    build_spec(s, Seq::empty(), Seq::empty())
}

/// Whether a character is one of the six markers.
pub fn marker_char(c: char) -> (b: bool)
    ensures
        b == is_marker(c),
{
    c == '+' || c == '-' || c == '*' || c == '/' || c == '(' || c == ')'
}

/// The two working stacks of one build: operator symbols, and output
/// elements in the order the tree construction consumes them.
pub struct ExpressionBuilder {
    pub op_stack: Vec<char>,
    pub expr_stack: Vec<Element>,
}

impl ExpressionBuilder {
    /// A builder with both stacks empty.
    pub fn new() -> (r: ExpressionBuilder)
        ensures
            r.op_stack@ == Seq::<char>::empty(),
            r.expr_stack@ == Seq::<Element>::empty(),
    {
        ExpressionBuilder { op_stack: Vec::new(), expr_stack: Vec::new() }
    }

    /// Move operators from the symbol stack to the output stack until the
    /// stack is empty, a `(` is on top, or — under a precedence limit — the
    /// top binds no more strongly than the limit.
    pub fn shuffle_ops_until(&mut self, prec_limit: Option<u32>)
        ensures
            (final(self).op_stack@, final(self).expr_stack@) == shuffle_spec(
                old(self).op_stack@,
                old(self).expr_stack@,
                prec_limit,
            ),
    {
        let ghost target = shuffle_spec(self.op_stack@, self.expr_stack@, prec_limit);
        loop
            invariant
                shuffle_spec(self.op_stack@, self.expr_stack@, prec_limit) == target,
            ensures
                (self.op_stack@, self.expr_stack@) == target,
            decreases self.op_stack@.len(),
        {
            let n = self.op_stack.len();
            if n == 0 {
                break ;
            }
            let top = self.op_stack[n - 1];
            proof {
                assert(self.op_stack@.last() == top);
            }
            if top == '(' {
                break ;
            }
            if let Some(p) = prec_limit {
                if Operator::precedence(top) <= p {
                    break ;
                }
            }
            self.op_stack.pop();
            let wrapped = match Operator::from(top) {
                Ok(o) => o,
                Err(_) => Operator::Multiplication,
            };
            proof {
                assert(wrapped == operator_of(top));
            }
            self.expr_stack.push(Element::OperatorEl(wrapped));
        }
    }

    /// Push a nonempty operand token onto the output stack; an empty token
    /// is skipped, a token that parses as neither dice nor number aborts.
    pub fn try_push_operand(&mut self, operand_str: &str) -> (r: Result<(), ParseError>)
        ensures
            match push_operand_spec(operand_str@, old(self).expr_stack@) {
                Ok(e) => r is Ok && final(self).expr_stack@ == e && final(self).op_stack@ == old(
                    self,
                ).op_stack@,
                Err(er) => r == Err::<(), ParseError>(er) && *final(self) == *old(self),
            },
    {
        if operand_str.unicode_len() == 0 {
            return Ok(());
        }
        match Operand::from(operand_str) {
            Ok(op) => {
                self.expr_stack.push(Element::OperandEl(op));
                Ok(())
            },
            Err(e) => Err(e),
        }
    }

    /// Push an operator symbol (or `(`) onto the symbol stack, first moving
    /// the more strongly binding operators to the output stack.
    pub fn try_push_operator(&mut self, operator_str: char)
        ensures
            (final(self).op_stack@, final(self).expr_stack@) == push_operator_spec(
                operator_str,
                old(self).op_stack@,
                old(self).expr_stack@,
            ),
    {
        if operator_str != '(' {
            self.shuffle_ops_until(Some(Operator::precedence(operator_str)));
        }
        self.op_stack.push(operator_str);
    }

    /// Handle a `)`: move operators to the output stack until the matching
    /// `(`, and discard it.
    pub fn close_paren(&mut self) -> (r: Result<(), ParseError>)
        ensures
            match close_paren_spec(old(self).op_stack@, old(self).expr_stack@) {
                Ok((o, e)) => r is Ok && final(self).op_stack@ == o && final(self).expr_stack@
                    == e,
                Err(er) => r == Err::<(), ParseError>(er) && (
                final(self).op_stack@,
                final(self).expr_stack@,
                ) == shuffle_spec(old(self).op_stack@, old(self).expr_stack@, None),
            },
    {
        self.shuffle_ops_until(None);
        match self.op_stack.pop() {
            Some(_) => Ok(()),
            None => Err(ParseError::UnbalancedParentheses),
        }
    }

    /// Consume the builder and one input string: scan for markers, push the
    /// operand tokens between them, act on each marker, flush the symbol
    /// stack, and construct the tree from the output stack.
    pub fn build(self, expr_str: &str) -> (r: Result<Expression, ParseError>)
        requires
            self.op_stack@ == Seq::<char>::empty(),
            self.expr_stack@ == Seq::<Element>::empty(),
        ensures
            r == parse_spec(expr_str@),
    {
        let ghost s = expr_str@;
        let ghost ops0 = self.op_stack@;
        let ghost elems0 = self.expr_stack@;
        let mut b = self;
        let n = expr_str.unicode_len();
        let mut last: usize = 0;
        let mut i: usize = 0;
        while i < n
            invariant
                n == s.len(),
                expr_str@ == s,
                ops0 == Seq::<char>::empty(),
                elems0 == Seq::<Element>::empty(),
                0 <= last <= i <= n,
                build_loop_spec(s, i as int, last as int, b.op_stack@, b.expr_stack@)
                    == build_loop_spec(s, 0, 0, ops0, elems0),
            decreases n - i,
        {
            let ghost opsi = b.op_stack@;
            let ghost elemsi = b.expr_stack@;
            let c = expr_str.get_char(i);
            if marker_char(c) {
                let tok = expr_str.substring_char(last, i);
                proof {
                    assert(tok@ == s.subrange(last as int, i as int));
                }
                match b.try_push_operand(tok) {
                    Err(e) => {
                        proof {
                            assert(build_loop_spec(s, i as int, last as int, opsi, elemsi)
                                == Err::<(int, Seq<char>, Seq<Element>), ParseError>(e));
                            assert(build_spec(s, ops0, elems0) == Err::<Expression, ParseError>(
                                e,
                            ));
                        }
                        return Err(e);
                    },
                    Ok(()) => {},
                }
                let ghost elems1 = b.expr_stack@;
                if c == ')' {
                    match b.close_paren() {
                        Err(e) => {
                            proof {
                                assert(close_paren_spec(opsi, elems1) == Err::<
                                    (Seq<char>, Seq<Element>),
                                    ParseError,
                                >(e));
                                assert(build_loop_spec(s, i as int, last as int, opsi, elemsi)
                                    == Err::<(int, Seq<char>, Seq<Element>), ParseError>(e));
                                assert(build_spec(s, ops0, elems0) == Err::<
                                    Expression,
                                    ParseError,
                                >(e));
                            }
                            return Err(e);
                        },
                        Ok(()) => {},
                    }
                } else {
                    b.try_push_operator(c);
                }
                proof {
                    assert(build_loop_spec(s, i + 1, i + 1, b.op_stack@, b.expr_stack@)
                        == build_loop_spec(s, i as int, last as int, opsi, elemsi));
                }
                last = i + 1;
            } else {
                proof {
                    assert(build_loop_spec(s, i + 1, last as int, b.op_stack@, b.expr_stack@)
                        == build_loop_spec(s, i as int, last as int, opsi, elemsi));
                }
            }
            i += 1;
        }
        proof {
            assert(build_loop_spec(s, i as int, last as int, b.op_stack@, b.expr_stack@)
                == Ok::<(int, Seq<char>, Seq<Element>), ParseError>((
                last as int,
                b.op_stack@,
                b.expr_stack@,
            )));
        }
        let tok = expr_str.substring_char(last, n);
        proof {
            assert(tok@ == s.subrange(last as int, n as int));
            assert(s.subrange(last as int, n as int) =~= s.skip(last as int));
        }
        match b.try_push_operand(tok) {
            Err(e) => {
                proof {
                    assert(build_spec(s, ops0, elems0) == Err::<Expression, ParseError>(e));
                }
                return Err(e);
            },
            Ok(()) => {},
        }
        b.shuffle_ops_until(None);
        if b.op_stack.len() > 0 {
            return Err(ParseError::UnbalancedParentheses);
        }
        match Expression::from_stack(&mut b.expr_stack) {
            Some(expr) => Ok(*expr),
            None => Err(ParseError::EmptyExpression),
        }
    }
}

impl Expression {
    /// Parse infix text into an expression tree.
    pub fn from_str(infix_str: &str) -> (r: Result<Expression, ParseError>)
        ensures
            r == parse_spec(infix_str@),
    {
        let builder = ExpressionBuilder::new();
        builder.build(infix_str)
    }

    /// Pop the output stack into a tree: an operand element becomes a leaf,
    /// an operator element takes its right subtree from the stack first,
    /// then its left; an empty stack gives nothing.
    pub fn from_stack(expr_stack: &mut Vec<Element>) -> (r: Option<Box<Expression>>)
        ensures
            ({
                let (sr, rest) = from_stack_spec(old(expr_stack)@);
                &&& final(expr_stack)@ == rest
                &&& match r {
                    Some(b) => sr == Some(*b),
                    None => sr is None,
                }
            }),
            final(expr_stack)@.len() <= old(expr_stack)@.len(),
        decreases old(expr_stack)@.len(),
    {
        let ghost st0 = expr_stack@;
        if let Some(element) = expr_stack.pop() {
            proof {
                assert(st0.last() == element);
                assert(expr_stack@ == st0.drop_last());
            }
            match element {
                Element::OperatorEl(_) => {
                    proof {
                        lemma_from_stack_fuel(st0.drop_last(), (st0.len() - 1) as nat, st0.drop_last().len());
                    }
                    let right = Self::from_stack(expr_stack);
                    proof {
                        let (r1, st1) = from_stack_spec(st0.drop_last());
                        lemma_from_stack_len(st0.drop_last(), st0.drop_last().len());
                        lemma_from_stack_fuel(st1, (st0.len() - 1) as nat, st1.len());
                    }
                    let left = Self::from_stack(expr_stack);
                    Some(Box::new(Expression { element, right, left }))
                },
                Element::OperandEl(_) => Some(
                    Box::new(Expression { element, right: None, left: None }),
                ),
            }
        } else {
            None
        }
    }
}

} // verus!
