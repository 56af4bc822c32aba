//! Expression trees over dice and numbers: operators, operands, the
//! shunting-yard builder, roll freezing and evaluation.

pub mod builder;
pub mod dice;
pub mod laws;
pub mod text;

use vstd::prelude::*;
use vstd::string::StringExecFns;

verus! {

/// A failure while turning text into an expression tree.
#[derive(Clone, Copy, PartialEq, Eq, Structural, Debug)]
pub enum ParseError {
    /// A part that should have been a non-negative integer was not one,
    /// or did not fit the integer type.
    InvalidNumber,
    /// A dice token had no separator, or nothing after it.
    MissingSides,
    /// A dice token had more than one separator.
    TooManySeparators,
    /// A token that is neither a dice token nor a number.
    MalformedOperand,
    /// A symbol that names no operator; the tokenizer never emits one.
    UnknownOperator,
    /// A `)` without a matching `(`, or a `(` left open.
    UnbalancedParentheses,
    /// The input held no operand at all.
    EmptyExpression,
}

/// A failure while evaluating a tree.
#[derive(Clone, Copy, PartialEq, Eq, Structural, Debug)]
pub enum EvalError {
    /// An operator node misses a child: an internal invariant violation,
    /// reported as an ordinary error.
    MalformedTree,
}

pub open spec fn parse_error_text(e: ParseError) -> Seq<char> {
    match e {
        ParseError::InvalidNumber => "could not parse a number"@,
        ParseError::MissingSides => "the dice had no number that could be construed as the sides"@,
        ParseError::TooManySeparators => "the dice had too many 'd' characters"@,
        ParseError::MalformedOperand => "could not parse as dice or number"@,
        ParseError::UnknownOperator => "unknown operator in expression"@,
        ParseError::UnbalancedParentheses => "unbalanced parentheses"@,
        ParseError::EmptyExpression => "unable to create expression tree"@,
    }
}

pub open spec fn eval_error_text(e: EvalError) -> Seq<char> {
    match e {
        EvalError::MalformedTree => "malformed tree, operand(s) absent for binary operator"@,
    }
}

impl ParseError {
    /// The short display-ready description of this error.
    pub fn message(&self) -> (r: String)
        ensures
            r@ == parse_error_text(*self),
    {
        match self {
            ParseError::InvalidNumber => "could not parse a number".to_owned(),
            ParseError::MissingSides => "the dice had no number that could be construed as the sides".to_owned(),
            ParseError::TooManySeparators => "the dice had too many 'd' characters".to_owned(),
            ParseError::MalformedOperand => "could not parse as dice or number".to_owned(),
            ParseError::UnknownOperator => "unknown operator in expression".to_owned(),
            ParseError::UnbalancedParentheses => "unbalanced parentheses".to_owned(),
            ParseError::EmptyExpression => "unable to create expression tree".to_owned(),
        }
    }
}

impl EvalError {
    /// The short display-ready description of this error.
    pub fn message(&self) -> (r: String)
        ensures
            r@ == eval_error_text(*self),
    {
        match self {
            EvalError::MalformedTree => "malformed tree, operand(s) absent for binary operator".to_owned(),
        }
    }
}

/// One of the four binary integer operators.
#[derive(Clone, Copy, PartialEq, Eq, Structural, Debug)]
pub enum Operator {
    Addition,
    Subtraction,
    Multiplication,
    Division,
}

/// The operator a symbol names; any symbol off the four is read as
/// multiplication, which mirrors how the builder treats a foreign symbol
/// (the tokenizer never produces one).
pub open spec fn operator_of(c: char) -> Operator {
    if c == '+' {
        Operator::Addition
    } else if c == '-' {
        Operator::Subtraction
    } else if c == '*' {
        Operator::Multiplication
    } else if c == '/' {
        Operator::Division
    } else {
        Operator::Multiplication
    }
}

pub open spec fn is_operator_char(c: char) -> bool {
    c == '+' || c == '-' || c == '*' || c == '/'
}

/// Binding strength of an operator symbol; symbols off the six markers rank
/// lowest.
pub open spec fn precedence_of(c: char) -> u32 {
    if c == '*' || c == '/' {
        1u32
    } else {
        0u32
    }
}

/// What an operator makes of two values: addition and multiplication
/// saturate at the top of the type, subtraction saturates at zero, and
/// division by zero yields zero.
pub open spec fn apply_op(op: Operator, lhs: u32, rhs: u32) -> u32 {
    match op {
        Operator::Addition => {
            if lhs + rhs > u32::MAX {
                u32::MAX
            } else {
                (lhs + rhs) as u32
            }
        },
        Operator::Subtraction => {
            if lhs >= rhs {
                (lhs - rhs) as u32
            } else {
                0u32
            }
        },
        Operator::Multiplication => {
            if lhs * rhs > u32::MAX {
                u32::MAX
            } else {
                (lhs * rhs) as u32
            }
        },
        Operator::Division => {
            if rhs == 0 {
                0u32
            } else {
                (lhs as int / rhs as int) as u32
            }
        },
    }
}

impl Operator {
    /// The operator named by a symbol; symbols off the four are refused.
    pub fn from(symbol: char) -> (r: Result<Operator, ParseError>)
        ensures
            is_operator_char(symbol) ==> r == Ok::<Operator, ParseError>(operator_of(symbol)),
            !is_operator_char(symbol) ==> r == Err::<Operator, ParseError>(
                ParseError::UnknownOperator,
            ),
    {
        match symbol {
            '+' => Ok(Operator::Addition),
            '-' => Ok(Operator::Subtraction),
            '*' => Ok(Operator::Multiplication),
            '/' => Ok(Operator::Division),
            _ => Err(ParseError::UnknownOperator),
        }
    }

    /// Combine two values under this operator.
    pub fn operate(&self, lhs: u32, rhs: u32) -> (r: u32)
        ensures
            r == apply_op(*self, lhs, rhs),
    {
        match self {
            Operator::Addition => match lhs.checked_add(rhs) {
                Some(v) => v,
                None => u32::MAX,
            },
            Operator::Subtraction => match lhs.checked_sub(rhs) {
                Some(v) => v,
                None => 0,
            },
            Operator::Multiplication => match lhs.checked_mul(rhs) {
                Some(v) => v,
                None => u32::MAX,
            },
            Operator::Division => match lhs.checked_div(rhs) {
                Some(v) => v,
                None => 0,
            },
        }
    }

    /// Binding strength of an operator symbol.
    pub fn precedence(op: char) -> (r: u32)
        ensures
            r == precedence_of(op),
    {
        match op {
            '*' => 1,
            '/' => 1,
            _ => 0,
        }
    }
}

/// A leaf value: a plain number, a dice value not yet rolled, or a roll.
#[derive(Debug)]
pub enum Operand {
    Number(u32),
    Dice(dice::Dice),
    Roll(dice::Roll),
}

/// What parsing an operand token returns: a token holding the dice
/// separator is read as dice (its own failures passed along), anything else
/// as a number.
pub open spec fn operand_spec(s: Seq<char>) -> Result<Operand, ParseError> {
    if dice::count_char(s, 'd') > 0 {
        match dice::dice_spec(s) {
            Ok(d) => Ok(Operand::Dice(d)),
            Err(e) => Err(e),
        }
    } else if text::u32_str(s) {
        Ok(Operand::Number(text::num_val(s) as u32))
    } else {
        Err(ParseError::MalformedOperand)
    }
}

impl Operand {
    /// Parse one token: dice when it holds the separator `d`, a number
    /// otherwise.
    pub fn from(string: &str) -> (r: Result<Operand, ParseError>)
        ensures
            r == operand_spec(string@),
    {
        let chars = text::chars_vec(string);
        let ghost s = string@;
        let mut has_d = false;
        let mut i: usize = 0;
        while i < chars.len()
            invariant
                chars@ == s,
                0 <= i <= s.len(),
                has_d == (dice::count_char(s.take(i as int), 'd') > 0),
            decreases s.len() - i,
        {
            proof {
                assert(s.take(i + 1).drop_last() =~= s.take(i as int));
                assert(s.take(i + 1).last() == s[i as int]);
            }
            if chars[i] == 'd' {
                has_d = true;
            }
            i += 1;
        }
        proof {
            assert(s.take(s.len() as int) =~= s);
        }
        if has_d {
            match dice::Dice::new(string) {
                Ok(d) => Ok(Operand::Dice(d)),
                Err(e) => Err(e),
            }
        } else {
            match text::parse_u32(chars.as_slice()) {
                Ok(n) => Ok(Operand::Number(n)),
                Err(_) => Err(ParseError::MalformedOperand),
            }
        }
    }
}

/// The payload of a tree node.
#[derive(Debug)]
pub enum Element {
    OperatorEl(Operator),
    OperandEl(Operand),
}

/// A binary expression tree: an operator node owns exactly two children,
/// an operand node none.
#[derive(Debug)]
pub struct Expression {
    pub right: Option<Box<Expression>>,
    pub left: Option<Box<Expression>>,
    pub element: Element,
}

/// Every dice operand in the tree has a nonempty sampling range whose top
/// fits the result type; sampling is only specified under this bound.
pub open spec fn dice_ok(e: Expression) -> bool
    decreases e,
{
    (match e.element {
        Element::OperandEl(Operand::Dice(d)) => d.sample_ok(),
        _ => true,
    }) && (match e.left {
        Some(l) => dice_ok(*l),
        None => true,
    }) && (match e.right {
        Some(r) => dice_ok(*r),
        None => true,
    })
}

/// Every operator node has both children: the shape on which evaluation
/// succeeds.
pub open spec fn eval_wf(e: Expression) -> bool
    decreases e,
{
    match e.element {
        Element::OperandEl(_) => true,
        Element::OperatorEl(_) => match (e.left, e.right) {
            (Some(l), Some(r)) => eval_wf(*l) && eval_wf(*r),
            _ => false,
        },
    }
}

/// No dice operand is left unrolled anywhere in the tree.
pub open spec fn frozen(e: Expression) -> bool
    decreases e,
{
    (match e.element {
        Element::OperandEl(Operand::Dice(_)) => false,
        _ => true,
    }) && (match e.left {
        Some(l) => frozen(*l),
        None => true,
    }) && (match e.right {
        Some(r) => frozen(*r),
        None => true,
    })
}

/// The one value of a frozen well-formed tree: numbers and fixed rolls at
/// the leaves, the operators' rules above them.
pub open spec fn eval_of(e: Expression) -> u32
    decreases e,
{
    match e.element {
        Element::OperandEl(Operand::Number(n)) => n,
        Element::OperandEl(Operand::Roll(r)) => r.result,
        Element::OperandEl(Operand::Dice(_)) => 0u32,
        Element::OperatorEl(op) => match (e.left, e.right) {
            (Some(l), Some(r)) => apply_op(op, eval_of(*l), eval_of(*r)),
            _ => 0u32,
        },
    }
}

/// The values a tree can evaluate to: an unrolled dice operand may take any
/// value of its sampling range, everything else is fixed.
pub open spec fn eval_rel(e: Expression, v: u32) -> bool
    decreases e,
{
    match e.element {
        Element::OperandEl(Operand::Number(n)) => v == n,
        Element::OperandEl(Operand::Roll(r)) => v == r.result,
        Element::OperandEl(Operand::Dice(d)) => d.quantity <= v && v <= d.quantity * d.sides,
        Element::OperatorEl(op) => match (e.left, e.right) {
            (Some(l), Some(r)) => exists|a: u32, b: u32|
                #![trigger apply_op(op, a, b)]
                eval_rel(*l, a) && eval_rel(*r, b) && v == apply_op(op, a, b),
            _ => false,
        },
    }
}

/// How one node payload turns into another under freezing: a dice operand
/// becomes a roll of itself within its sampling range; everything else is
/// kept as it is.
pub open spec fn element_freeze_rel(a: Element, b: Element) -> bool {
    match (a, b) {
        (Element::OperandEl(Operand::Number(n)), Element::OperandEl(Operand::Number(m))) => n
            == m,
        (Element::OperandEl(Operand::Roll(r)), Element::OperandEl(Operand::Roll(s))) => r == s,
        (Element::OperandEl(Operand::Dice(d)), Element::OperandEl(Operand::Roll(s))) => s.dice
            == d && d.quantity <= s.result && s.result <= d.quantity * d.sides,
        (Element::OperatorEl(x), Element::OperatorEl(y)) => x == y,
        _ => false,
    }
}

/// How a tree turns into another under freezing: same shape, related
/// payloads node by node.
pub open spec fn freeze_rel(a: Expression, b: Expression) -> bool
    decreases a,
{
    element_freeze_rel(a.element, b.element) && (match (a.left, b.left) {
        (None, None) => true,
        (Some(x), Some(y)) => freeze_rel(*x, *y),
        _ => false,
    }) && (match (a.right, b.right) {
        (None, None) => true,
        (Some(x), Some(y)) => freeze_rel(*x, *y),
        _ => false,
    })
}

/// The text of an operand leaf.
pub open spec fn operand_text(o: Operand) -> Seq<char> {
    match o {
        Operand::Number(n) => text::dec_seq(n as int),
        Operand::Dice(d) => dice::dice_text(d),
        Operand::Roll(r) => dice::roll_text(r),
    }
}

/// The symbol of an operator.
pub open spec fn symbol_of(op: Operator) -> char {
    match op {
        Operator::Addition => '+',
        Operator::Subtraction => '-',
        Operator::Multiplication => '*',
        Operator::Division => '/',
    }
}

/// The infix text of a tree: leaves by their own text, an operator node as
/// `left symbol right` with single spaces and no added parentheses; a
/// missing child contributes nothing.
pub open spec fn render_text(e: Expression) -> Seq<char>
    decreases e,
{
    match e.element {
        Element::OperandEl(o) => operand_text(o),
        Element::OperatorEl(op) => (match e.left {
            Some(l) => render_text(*l),
            None => Seq::empty(),
        }) + seq![' ', symbol_of(op), ' '] + (match e.right {
            Some(r) => render_text(*r),
            None => Seq::empty(),
        }),
    }
}

impl Expression {
    /// Whether every dice operand in the tree may be sampled: its range
    /// `[quantity, quantity * sides]` is nonempty and fits the result type.
    /// Freezing and evaluation ask for this.
    pub fn rolls_in_bounds(&self) -> (b: bool)
        ensures
            b == dice_ok(*self),
        decreases *self,
    {
        let here = match &self.element {
            Element::OperandEl(Operand::Dice(d)) => match d.quantity.checked_mul(d.sides) {
                Some(p) => d.quantity <= p,
                None => false,
            },
            _ => true,
        };
        if !here {
            return false;
        }
        let left_ok = match &self.left {
            Some(l) => l.rolls_in_bounds(),
            None => true,
        };
        if !left_ok {
            return false;
        }
        match &self.right {
            Some(r) => r.rolls_in_bounds(),
            None => true,
        }
    }

    /// Freeze the tree in place: sample every dice operand once and replace
    /// it by the roll; numbers, earlier rolls and the shape stay as they
    /// are, so later evaluations are deterministic.
    pub fn determine(&mut self, rng: &mut rand::rngs::ThreadRng)
        requires
            dice_ok(*old(self)),
        ensures
            freeze_rel(*old(self), *final(self)),
            frozen(*final(self)),
        decreases *old(self),
    {
        let here: Option<dice::Dice> = match &self.element {
            Element::OperandEl(Operand::Dice(d)) => Some(*d),
            _ => None,
        };
        if let Some(d) = here {
            let rolled = d.roll(rng);
            self.element = Element::OperandEl(Operand::Roll(rolled));
        }
        match &mut self.left {
            Some(l) => l.determine(rng),
            None => {},
        }
        match &mut self.right {
            Some(r) => r.determine(rng),
            None => {},
        }
    }

    /// Evaluate the tree to one value. A number or roll leaf is its value;
    /// an unrolled dice leaf is sampled afresh on every call; an operator
    /// node combines its children, left before right. The call succeeds
    /// exactly on trees whose operator nodes all have both children, and on
    /// a frozen tree every call returns the same value.
    pub fn resolve(&self, rng: &mut rand::rngs::ThreadRng) -> (r: Result<u32, EvalError>)
        requires
            dice_ok(*self),
        ensures
            r is Ok <==> eval_wf(*self),
            !eval_wf(*self) ==> r == Err::<u32, EvalError>(EvalError::MalformedTree),
            eval_wf(*self) ==> r is Ok && eval_rel(*self, r->Ok_0),
            frozen(*self) && eval_wf(*self) ==> r == Ok::<u32, EvalError>(eval_of(*self)),
        decreases *self,
    {
        match &self.element {
            Element::OperandEl(operand) => match operand {
                Operand::Number(num) => Ok(*num),
                Operand::Dice(d) => {
                    let rolled = d.roll(rng);
                    Ok(rolled.result)
                },
                Operand::Roll(roll) => Ok(roll.result),
            },
            Element::OperatorEl(operator) => match (&self.left, &self.right) {
                (Some(left), Some(right)) => {
                    let lhs = match left.resolve(rng) {
                        Ok(v) => v,
                        Err(e) => {
                            return Err(e);
                        },
                    };
                    let rhs = match right.resolve(rng) {
                        Ok(v) => v,
                        Err(e) => {
                            return Err(e);
                        },
                    };
                    Ok(operator.operate(lhs, rhs))
                },
                _ => Err(EvalError::MalformedTree),
            },
        }
    }

    /// Append the infix text of the tree to a string.
    fn push_render(&self, out: &mut String)
        ensures
            final(out)@ == old(out)@ + render_text(*self),
        decreases *self,
    {
        match &self.element {
            Element::OperandEl(o) => match o {
                Operand::Number(n) => {
                    text::push_decimal(out, *n);
                },
                Operand::Dice(d) => {
                    let s = d.render();
                    out.append(s.as_str());
                },
                Operand::Roll(r) => {
                    let s = r.render();
                    out.append(s.as_str());
                },
            },
            Element::OperatorEl(op) => {
                let ghost before = out@;
                match &self.left {
                    Some(l) => l.push_render(out),
                    None => {},
                }
                out.append(" ");
                match op {
                    Operator::Addition => out.append("+"),
                    Operator::Subtraction => out.append("-"),
                    Operator::Multiplication => out.append("*"),
                    Operator::Division => out.append("/"),
                }
                out.append(" ");
                let ghost mid = out@;
                match &self.right {
                    Some(r) => r.push_render(out),
                    None => {},
                }
                proof {
                    reveal_strlit(" ");
                    reveal_strlit("+");
                    reveal_strlit("-");
                    reveal_strlit("*");
                    reveal_strlit("/");
                    let lt = match &self.left {
                        Some(l) => render_text(**l),
                        None => Seq::<char>::empty(),
                    };
                    let rt = match &self.right {
                        Some(r) => render_text(**r),
                        None => Seq::<char>::empty(),
                    };
                    assert(mid =~= before + lt + seq![' ', symbol_of(*op), ' ']);
                    assert(out@ =~= before + render_text(*self));
                }
            },
        }
    }

    /// Write the tree back as infix text.
    pub fn render(&self) -> (r: String)
        ensures
            r@ == render_text(*self),
    {
        let mut out = String::new();
        self.push_render(&mut out);
        proof {
            assert(out@ =~= render_text(*self));
        }
        out
    }
}

} // verus!
