//! Laws of the library, proved once and for all inputs: what parsing a
//! two-operand expression yields, what values a tree can evaluate to, and
//! that freezing fixes one of them.

use vstd::prelude::*;

use crate::rolling::builder::{
    build_loop_spec, close_paren_spec, from_stack_rec, is_marker, parse_spec, push_operand_spec,
    push_operator_spec, shuffle_spec,
};
use crate::rolling::dice::{count_char, dice_spec, find_char, Dice};
use crate::rolling::text::{dec_seq, is_digit, lemma_dec_seq_val};
use crate::rolling::{
    apply_op, dice_ok, eval_of, eval_rel, eval_wf, freeze_rel, frozen, is_operator_char,
    operand_spec, operator_of, precedence_of, Element, Expression, Operand, Operator, ParseError,
};

verus! {

/// A leaf holding a plain number.
pub open spec fn number_leaf(n: u32) -> Expression {
    Expression { element: Element::OperandEl(Operand::Number(n)), right: None, left: None }
}

/// A leaf holding an unrolled dice value.
pub open spec fn dice_leaf(d: Dice) -> Expression {
    Expression { element: Element::OperandEl(Operand::Dice(d)), right: None, left: None }
}

/// An operator node over two subtrees.
pub open spec fn binary_node(op: Operator, l: Expression, r: Expression) -> Expression {
    Expression {
        element: Element::OperatorEl(op),
        right: Some(Box::new(r)),
        left: Some(Box::new(l)),
    }
}

/// A string of digits holds no marker and no dice separator.
proof fn lemma_digits_no_d(s: Seq<char>)
    requires
        forall|i: int| 0 <= i < s.len() ==> is_digit(s[i]),
    ensures
        count_char(s, 'd') == 0,
    decreases s.len(),
{
    if s.len() > 0 {
        lemma_digits_no_d(s.drop_last());
    }
}

/// Scanning over marker-free text changes nothing.
proof fn lemma_build_loop_skip(
    s: Seq<char>,
    i: int,
    j: int,
    last: int,
    ops: Seq<char>,
    elems: Seq<Element>,
)
    requires
        0 <= i <= j <= s.len(),
        forall|m: int| i <= m < j ==> !is_marker(s[m]),
    ensures
        build_loop_spec(s, i, last, ops, elems) == build_loop_spec(s, j, last, ops, elems),
    decreases j - i,
{
    if i < j {
        assert(!is_marker(s[i]));
        lemma_build_loop_skip(s, i + 1, j, last, ops, elems);
    }
}

/// What parsing `A c B` gives, for numerals `A`, `B` and one operator
/// symbol `c`: the operator over the two number leaves — a frozen,
/// well-formed tree whose value is the operator applied to the numbers.
pub proof fn lemma_parse_binary(a: u32, b: u32, c: char)
    requires
        is_operator_char(c),
    ensures
        ({
            let s = dec_seq(a as int) + seq![c] + dec_seq(b as int);
            let t = binary_node(operator_of(c), number_leaf(a), number_leaf(b));
            &&& parse_spec(s) == Ok::<Expression, ParseError>(t)
            &&& eval_wf(t)
            &&& frozen(t)
            &&& dice_ok(t)
            &&& eval_of(t) == apply_op(operator_of(c), a, b)
        }),
{
    let qa = dec_seq(a as int);
    let qb = dec_seq(b as int);
    let s = qa + seq![c] + qb;
    let k = qa.len() as int;
    lemma_dec_seq_val(a as int);
    lemma_dec_seq_val(b as int);
    lemma_digits_no_d(qa);
    lemma_digits_no_d(qb);

    assert(s.len() == qa.len() + 1 + qb.len());
    assert(s[k] == c);
    assert(forall|m: int| 0 <= m < k ==> s[m] == qa[m]);
    assert(forall|m: int| k < m < s.len() ==> s[m] == qb[m - k - 1]);
    assert(forall|m: int| 0 <= m < k ==> is_digit(s[m]) && !is_marker(s[m]));
    assert(forall|m: int| k < m < s.len() ==> is_digit(s[m]) && !is_marker(s[m]));

    let empty_ops = Seq::<char>::empty();
    let empty_elems = Seq::<Element>::empty();
    lemma_build_loop_skip(s, 0, k, 0, empty_ops, empty_elems);

    // at position k: the token so far is the first numeral
    assert(s.subrange(0, k) =~= qa);
    assert(operand_spec(qa) == Ok::<Operand, ParseError>(Operand::Number(a)));
    let el_a = Element::OperandEl(Operand::Number(a));
    assert(empty_elems.push(el_a) =~= seq![el_a]);
    assert(push_operand_spec(qa, empty_elems) == Ok::<Seq<Element>, ParseError>(seq![el_a]));
    // the operator symbol goes onto the empty symbol stack
    assert(is_marker(c) && c != ')' && c != '(');
    assert(empty_ops.push(c) =~= seq![c]);
    assert(push_operator_spec(c, empty_ops, seq![el_a]) == (seq![c], seq![el_a]));
    assert(build_loop_spec(s, k, 0, empty_ops, empty_elems) == build_loop_spec(
        s,
        k + 1,
        k + 1,
        seq![c],
        seq![el_a],
    ));
    lemma_build_loop_skip(s, k + 1, s.len() as int, k + 1, seq![c], seq![el_a]);
    assert(build_loop_spec(s, s.len() as int, k + 1, seq![c], seq![el_a]) == Ok::<
        (int, Seq<char>, Seq<Element>),
        ParseError,
    >((k + 1, seq![c], seq![el_a])));

    // the trailing token is the second numeral
    assert(s.skip(k + 1) =~= qb);
    assert(operand_spec(qb) == Ok::<Operand, ParseError>(Operand::Number(b)));
    let el_b = Element::OperandEl(Operand::Number(b));
    let e2 = seq![el_a, el_b];
    assert(seq![el_a].push(el_b) =~= e2);
    assert(push_operand_spec(qb, seq![el_a]) == Ok::<Seq<Element>, ParseError>(e2));

    // the final flush moves the one operator to the output stack
    let el_op = Element::OperatorEl(operator_of(c));
    let e3 = seq![el_a, el_b, el_op];
    assert(seq![c].last() == c && seq![c].drop_last() =~= empty_ops);
    assert(e2.push(el_op) =~= e3);
    assert(shuffle_spec(empty_ops, e3, None) == (empty_ops, e3));
    assert(shuffle_spec(seq![c], e2, None) == (empty_ops, e3));

    // tree construction: operator first, right subtree, then left
    let leaf_a = number_leaf(a);
    let leaf_b = number_leaf(b);
    let t = binary_node(operator_of(c), leaf_a, leaf_b);
    assert(e3.last() == el_op);
    assert(e3.drop_last() =~= e2);
    assert(e2.last() == el_b);
    assert(e2.drop_last() =~= seq![el_a]);
    assert(seq![el_a].last() == el_a);
    assert(seq![el_a].drop_last() =~= empty_elems);
    assert(from_stack_rec(seq![el_a], 2nat) == (
        Some(leaf_a),
        Seq::<Element>::empty(),
    ));
    assert(from_stack_rec(e2, 2nat) == (Some(leaf_b), seq![el_a]));
    assert(from_stack_rec(e3, 3nat) == (Some(t), Seq::<Element>::empty()));
    assert(parse_spec(s) == Ok::<Expression, ParseError>(t));

    assert(eval_wf(leaf_a) && frozen(leaf_a) && dice_ok(leaf_a) && eval_of(leaf_a) == a);
    assert(eval_wf(leaf_b) && frozen(leaf_b) && dice_ok(leaf_b) && eval_of(leaf_b) == b);
    assert(t.left == Some(Box::new(leaf_a)) && t.right == Some(Box::new(leaf_b)));
    assert(eval_wf(t) && frozen(t) && dice_ok(t));
    assert(eval_of(t) == apply_op(operator_of(c), a, b));
}

/// Parsing `a+b` gives a tree whose evaluation is exactly `a + b`
/// (stated for sums that fit the result type).
pub proof fn lemma_parse_add_evaluates(a: u32, b: u32)
    requires
        a + b <= u32::MAX,
    ensures
        ({
            let s = dec_seq(a as int) + seq!['+'] + dec_seq(b as int);
            let t = binary_node(Operator::Addition, number_leaf(a), number_leaf(b));
            &&& parse_spec(s) == Ok::<Expression, ParseError>(t)
            &&& frozen(t) && eval_wf(t) && dice_ok(t)
            &&& eval_of(t) == a + b
        }),
{
    lemma_parse_binary(a, b, '+');
}

/// Parsing `a-b` gives a tree whose evaluation is `a - b` clamped to zero.
pub proof fn lemma_parse_sub_evaluates(a: u32, b: u32)
    ensures
        ({
            let s = dec_seq(a as int) + seq!['-'] + dec_seq(b as int);
            let t = binary_node(Operator::Subtraction, number_leaf(a), number_leaf(b));
            &&& parse_spec(s) == Ok::<Expression, ParseError>(t)
            &&& frozen(t) && eval_wf(t) && dice_ok(t)
            &&& eval_of(t) == if a >= b {
                (a - b) as u32
            } else {
                0u32
            }
        }),
{
    lemma_parse_binary(a, b, '-');
}

/// Parsing `a/b` gives a tree whose evaluation is `a / b`, and zero when
/// `b` is zero.
pub proof fn lemma_parse_div_evaluates(a: u32, b: u32)
    ensures
        ({
            let s = dec_seq(a as int) + seq!['/'] + dec_seq(b as int);
            let t = binary_node(Operator::Division, number_leaf(a), number_leaf(b));
            &&& parse_spec(s) == Ok::<Expression, ParseError>(t)
            &&& frozen(t) && eval_wf(t) && dice_ok(t)
            &&& eval_of(t) == if b == 0 {
                0u32
            } else {
                (a as int / b as int) as u32
            }
        }),
{
    lemma_parse_binary(a, b, '/');
}

/// When the first operator binds no more strongly than the second, the
/// second groups first: parsing `A c1 B c2 C` gives `A c1 (B c2 C)`. With
/// equal precedence this is right-associativity — ties stop the shuffle, so
/// the first operator waits; with a stronger second operator it is ordinary
/// precedence, as in a sum of a product.
pub proof fn lemma_right_grouping(a: u32, b: u32, c: u32, c1: char, c2: char)
    requires
        is_operator_char(c1),
        is_operator_char(c2),
        precedence_of(c1) <= precedence_of(c2),
    ensures
        ({
            let s = dec_seq(a as int) + seq![c1] + dec_seq(b as int) + seq![c2] + dec_seq(
                c as int,
            );
            let inner = binary_node(operator_of(c2), number_leaf(b), number_leaf(c));
            let t = binary_node(operator_of(c1), number_leaf(a), inner);
            &&& parse_spec(s) == Ok::<Expression, ParseError>(t)
            &&& frozen(t) && eval_wf(t) && dice_ok(t)
            &&& eval_of(t) == apply_op(operator_of(c1), a, apply_op(operator_of(c2), b, c))
        }),
{
    let qa = dec_seq(a as int);
    let qb = dec_seq(b as int);
    let qc = dec_seq(c as int);
    let s = qa + seq![c1] + qb + seq![c2] + qc;
    let k1 = qa.len() as int;
    let k2 = k1 + 1 + qb.len() as int;
    lemma_dec_seq_val(a as int);
    lemma_dec_seq_val(b as int);
    lemma_dec_seq_val(c as int);
    lemma_digits_no_d(qa);
    lemma_digits_no_d(qb);
    lemma_digits_no_d(qc);

    assert(s.len() == qa.len() + 1 + qb.len() + 1 + qc.len());
    assert(s[k1] == c1);
    assert(s[k2] == c2);
    assert(forall|m: int| 0 <= m < k1 ==> s[m] == qa[m]);
    assert(forall|m: int| k1 < m < k2 ==> s[m] == qb[m - k1 - 1]);
    assert(forall|m: int| k2 < m < s.len() ==> s[m] == qc[m - k2 - 1]);
    assert(forall|m: int| 0 <= m < k1 ==> is_digit(s[m]) && !is_marker(s[m]));
    assert(forall|m: int| k1 < m < k2 ==> is_digit(s[m]) && !is_marker(s[m]));
    assert(forall|m: int| k2 < m < s.len() ==> is_digit(s[m]) && !is_marker(s[m]));

    let empty_ops = Seq::<char>::empty();
    let empty_elems = Seq::<Element>::empty();
    let el_a = Element::OperandEl(Operand::Number(a));
    let el_b = Element::OperandEl(Operand::Number(b));
    let el_c = Element::OperandEl(Operand::Number(c));
    let el_op1 = Element::OperatorEl(operator_of(c1));
    let el_op2 = Element::OperatorEl(operator_of(c2));

    // first numeral, then the first operator symbol
    lemma_build_loop_skip(s, 0, k1, 0, empty_ops, empty_elems);
    assert(s.subrange(0, k1) =~= qa);
    assert(operand_spec(qa) == Ok::<Operand, ParseError>(Operand::Number(a)));
    assert(empty_elems.push(el_a) =~= seq![el_a]);
    assert(push_operand_spec(qa, empty_elems) == Ok::<Seq<Element>, ParseError>(seq![el_a]));
    assert(is_marker(c1) && c1 != ')' && c1 != '(');
    assert(is_marker(c2) && c2 != ')' && c2 != '(');
    assert(empty_ops.push(c1) =~= seq![c1]);
    assert(push_operator_spec(c1, empty_ops, seq![el_a]) == (seq![c1], seq![el_a]));
    assert(build_loop_spec(s, k1, 0, empty_ops, empty_elems) == build_loop_spec(
        s,
        k1 + 1,
        k1 + 1,
        seq![c1],
        seq![el_a],
    ));

    // second numeral, then the second operator symbol: the tie keeps the
    // first symbol on the stack
    lemma_build_loop_skip(s, k1 + 1, k2, k1 + 1, seq![c1], seq![el_a]);
    let e2 = seq![el_a, el_b];
    assert(s.subrange(k1 + 1, k2) =~= qb);
    assert(operand_spec(qb) == Ok::<Operand, ParseError>(Operand::Number(b)));
    assert(seq![el_a].push(el_b) =~= e2);
    assert(push_operand_spec(qb, seq![el_a]) == Ok::<Seq<Element>, ParseError>(e2));
    assert(seq![c1].last() == c1);
    assert(shuffle_spec(seq![c1], e2, Some(precedence_of(c2))) == (seq![c1], e2));
    assert(seq![c1].push(c2) =~= seq![c1, c2]);
    assert(push_operator_spec(c2, seq![c1], e2) == (seq![c1, c2], e2));
    assert(build_loop_spec(s, k2, k1 + 1, seq![c1], seq![el_a]) == build_loop_spec(
        s,
        k2 + 1,
        k2 + 1,
        seq![c1, c2],
        e2,
    ));
    lemma_build_loop_skip(s, k2 + 1, s.len() as int, k2 + 1, seq![c1, c2], e2);
    assert(build_loop_spec(s, s.len() as int, k2 + 1, seq![c1, c2], e2) == Ok::<
        (int, Seq<char>, Seq<Element>),
        ParseError,
    >((k2 + 1, seq![c1, c2], e2)));

    // trailing numeral
    let e3 = seq![el_a, el_b, el_c];
    assert(s.skip(k2 + 1) =~= qc);
    assert(operand_spec(qc) == Ok::<Operand, ParseError>(Operand::Number(c)));
    assert(e2.push(el_c) =~= e3);
    assert(push_operand_spec(qc, e2) == Ok::<Seq<Element>, ParseError>(e3));

    // the flush pops the second symbol first, then the first
    let e4 = seq![el_a, el_b, el_c, el_op2];
    let e5 = seq![el_a, el_b, el_c, el_op2, el_op1];
    assert(seq![c1, c2].last() == c2 && seq![c1, c2].drop_last() =~= seq![c1]);
    assert(e3.push(el_op2) =~= e4);
    assert(seq![c1].drop_last() =~= empty_ops);
    assert(e4.push(el_op1) =~= e5);
    assert(shuffle_spec(empty_ops, e5, None) == (empty_ops, e5));
    assert(shuffle_spec(seq![c1], e4, None) == (empty_ops, e5));
    assert(shuffle_spec(seq![c1, c2], e3, None) == (empty_ops, e5));

    // tree construction: the first operator sits on top, so it takes the
    // second operator's whole subtree as its right child
    let leaf_a = number_leaf(a);
    let leaf_b = number_leaf(b);
    let leaf_c = number_leaf(c);
    let inner = binary_node(operator_of(c2), leaf_b, leaf_c);
    let t = binary_node(operator_of(c1), leaf_a, inner);
    let p1 = seq![el_a];
    assert(e5.last() == el_op1 && e5.drop_last() =~= e4);
    assert(e4.last() == el_op2 && e4.drop_last() =~= e3);
    assert(e3.last() == el_c && e3.drop_last() =~= e2);
    assert(e2.last() == el_b && e2.drop_last() =~= p1);
    assert(p1.last() == el_a && p1.drop_last() =~= empty_elems);
    assert(from_stack_rec(e3, 3nat) == (Some(leaf_c), e2));
    assert(from_stack_rec(e2, 3nat) == (Some(leaf_b), p1));
    assert(from_stack_rec(e4, 4nat) == (Some(inner), p1));
    assert(from_stack_rec(p1, 4nat) == (Some(leaf_a), empty_elems));
    assert(from_stack_rec(e5, 5nat) == (Some(t), empty_elems));
    assert(parse_spec(s) == Ok::<Expression, ParseError>(t));

    assert(eval_wf(leaf_a) && frozen(leaf_a) && dice_ok(leaf_a) && eval_of(leaf_a) == a);
    assert(eval_wf(leaf_b) && frozen(leaf_b) && dice_ok(leaf_b) && eval_of(leaf_b) == b);
    assert(eval_wf(leaf_c) && frozen(leaf_c) && dice_ok(leaf_c) && eval_of(leaf_c) == c);
    assert(eval_wf(inner) && frozen(inner) && dice_ok(inner) && eval_of(inner) == apply_op(
        operator_of(c2),
        b,
        c,
    ));
    assert(eval_wf(t) && frozen(t) && dice_ok(t));
    assert(eval_of(t) == apply_op(operator_of(c1), a, apply_op(operator_of(c2), b, c)));
}

/// When the first operator binds more strongly than the second, it is built
/// first: parsing `A c1 B c2 C` gives `(A c1 B) c2 C`, as in a product
/// followed by a sum.
pub proof fn lemma_left_grouping(a: u32, b: u32, c: u32, c1: char, c2: char)
    requires
        is_operator_char(c1),
        is_operator_char(c2),
        precedence_of(c1) > precedence_of(c2),
    ensures
        ({
            let s = dec_seq(a as int) + seq![c1] + dec_seq(b as int) + seq![c2] + dec_seq(
                c as int,
            );
            let inner = binary_node(operator_of(c1), number_leaf(a), number_leaf(b));
            let t = binary_node(operator_of(c2), inner, number_leaf(c));
            &&& parse_spec(s) == Ok::<Expression, ParseError>(t)
            &&& frozen(t) && eval_wf(t) && dice_ok(t)
            &&& eval_of(t) == apply_op(operator_of(c2), apply_op(operator_of(c1), a, b), c)
        }),
{
    let qa = dec_seq(a as int);
    let qb = dec_seq(b as int);
    let qc = dec_seq(c as int);
    let s = qa + seq![c1] + qb + seq![c2] + qc;
    let k1 = qa.len() as int;
    let k2 = k1 + 1 + qb.len() as int;
    lemma_dec_seq_val(a as int);
    lemma_dec_seq_val(b as int);
    lemma_dec_seq_val(c as int);
    lemma_digits_no_d(qa);
    lemma_digits_no_d(qb);
    lemma_digits_no_d(qc);

    assert(s.len() == qa.len() + 1 + qb.len() + 1 + qc.len());
    assert(s[k1] == c1);
    assert(s[k2] == c2);
    assert(forall|m: int| 0 <= m < k1 ==> s[m] == qa[m]);
    assert(forall|m: int| k1 < m < k2 ==> s[m] == qb[m - k1 - 1]);
    assert(forall|m: int| k2 < m < s.len() ==> s[m] == qc[m - k2 - 1]);
    assert(forall|m: int| 0 <= m < k1 ==> is_digit(s[m]) && !is_marker(s[m]));
    assert(forall|m: int| k1 < m < k2 ==> is_digit(s[m]) && !is_marker(s[m]));
    assert(forall|m: int| k2 < m < s.len() ==> is_digit(s[m]) && !is_marker(s[m]));

    let empty_ops = Seq::<char>::empty();
    let empty_elems = Seq::<Element>::empty();
    let el_a = Element::OperandEl(Operand::Number(a));
    let el_b = Element::OperandEl(Operand::Number(b));
    let el_c = Element::OperandEl(Operand::Number(c));
    let el_op1 = Element::OperatorEl(operator_of(c1));
    let el_op2 = Element::OperatorEl(operator_of(c2));

    // first numeral, then the first operator symbol
    lemma_build_loop_skip(s, 0, k1, 0, empty_ops, empty_elems);
    assert(s.subrange(0, k1) =~= qa);
    assert(operand_spec(qa) == Ok::<Operand, ParseError>(Operand::Number(a)));
    assert(empty_elems.push(el_a) =~= seq![el_a]);
    assert(push_operand_spec(qa, empty_elems) == Ok::<Seq<Element>, ParseError>(seq![el_a]));
    assert(is_marker(c1) && c1 != ')' && c1 != '(');
    assert(is_marker(c2) && c2 != ')' && c2 != '(');
    assert(empty_ops.push(c1) =~= seq![c1]);
    assert(push_operator_spec(c1, empty_ops, seq![el_a]) == (seq![c1], seq![el_a]));
    assert(build_loop_spec(s, k1, 0, empty_ops, empty_elems) == build_loop_spec(
        s,
        k1 + 1,
        k1 + 1,
        seq![c1],
        seq![el_a],
    ));

    // second numeral; the second, weaker symbol pops the first
    lemma_build_loop_skip(s, k1 + 1, k2, k1 + 1, seq![c1], seq![el_a]);
    let e2 = seq![el_a, el_b];
    assert(s.subrange(k1 + 1, k2) =~= qb);
    assert(operand_spec(qb) == Ok::<Operand, ParseError>(Operand::Number(b)));
    assert(seq![el_a].push(el_b) =~= e2);
    assert(push_operand_spec(qb, seq![el_a]) == Ok::<Seq<Element>, ParseError>(e2));
    let e2b = seq![el_a, el_b, el_op1];
    assert(seq![c1].last() == c1 && seq![c1].drop_last() =~= empty_ops);
    assert(e2.push(el_op1) =~= e2b);
    assert(shuffle_spec(empty_ops, e2b, Some(precedence_of(c2))) == (empty_ops, e2b));
    assert(shuffle_spec(seq![c1], e2, Some(precedence_of(c2))) == (empty_ops, e2b));
    assert(empty_ops.push(c2) =~= seq![c2]);
    assert(push_operator_spec(c2, seq![c1], e2) == (seq![c2], e2b));
    assert(build_loop_spec(s, k2, k1 + 1, seq![c1], seq![el_a]) == build_loop_spec(
        s,
        k2 + 1,
        k2 + 1,
        seq![c2],
        e2b,
    ));
    lemma_build_loop_skip(s, k2 + 1, s.len() as int, k2 + 1, seq![c2], e2b);
    assert(build_loop_spec(s, s.len() as int, k2 + 1, seq![c2], e2b) == Ok::<
        (int, Seq<char>, Seq<Element>),
        ParseError,
    >((k2 + 1, seq![c2], e2b)));

    // trailing numeral
    let f4 = seq![el_a, el_b, el_op1, el_c];
    assert(s.skip(k2 + 1) =~= qc);
    assert(operand_spec(qc) == Ok::<Operand, ParseError>(Operand::Number(c)));
    assert(e2b.push(el_c) =~= f4);
    assert(push_operand_spec(qc, e2b) == Ok::<Seq<Element>, ParseError>(f4));

    // the flush pops the one remaining symbol
    let f5 = seq![el_a, el_b, el_op1, el_c, el_op2];
    assert(seq![c2].last() == c2 && seq![c2].drop_last() =~= empty_ops);
    assert(f4.push(el_op2) =~= f5);
    assert(shuffle_spec(empty_ops, f5, None) == (empty_ops, f5));
    assert(shuffle_spec(seq![c2], f4, None) == (empty_ops, f5));

    // tree construction: the weaker operator sits on top and takes the
    // stronger operator's subtree as its left child
    let leaf_a = number_leaf(a);
    let leaf_b = number_leaf(b);
    let leaf_c = number_leaf(c);
    let inner = binary_node(operator_of(c1), leaf_a, leaf_b);
    let t = binary_node(operator_of(c2), inner, leaf_c);
    let f1 = seq![el_a];
    let f3 = seq![el_a, el_b, el_op1];
    assert(f5.last() == el_op2 && f5.drop_last() =~= f4);
    assert(f4.last() == el_c && f4.drop_last() =~= f3);
    assert(f3.last() == el_op1 && f3.drop_last() =~= e2);
    assert(e2.last() == el_b && e2.drop_last() =~= f1);
    assert(f1.last() == el_a && f1.drop_last() =~= empty_elems);
    assert(from_stack_rec(f1, 3nat) == (Some(leaf_a), empty_elems));
    assert(from_stack_rec(e2, 3nat) == (Some(leaf_b), f1));
    assert(from_stack_rec(f3, 4nat) == (Some(inner), empty_elems));
    assert(from_stack_rec(f4, 4nat) == (Some(leaf_c), f3));
    assert(from_stack_rec(f5, 5nat) == (Some(t), empty_elems));
    assert(parse_spec(s) == Ok::<Expression, ParseError>(t));

    assert(eval_wf(leaf_a) && frozen(leaf_a) && dice_ok(leaf_a) && eval_of(leaf_a) == a);
    assert(eval_wf(leaf_b) && frozen(leaf_b) && dice_ok(leaf_b) && eval_of(leaf_b) == b);
    assert(eval_wf(leaf_c) && frozen(leaf_c) && dice_ok(leaf_c) && eval_of(leaf_c) == c);
    assert(eval_wf(inner) && frozen(inner) && dice_ok(inner) && eval_of(inner) == apply_op(
        operator_of(c1),
        a,
        b,
    ));
    assert(eval_wf(t) && frozen(t) && dice_ok(t));
    assert(eval_of(t) == apply_op(operator_of(c2), apply_op(operator_of(c1), a, b), c));
}

/// Parentheses override precedence: parsing `(A c1 B) c2 C` builds the
/// parenthesized pair first and hands it to the second operator as its left
/// child, whatever the two precedences are.
pub proof fn lemma_parentheses_group_first(a: u32, b: u32, c: u32, c1: char, c2: char)
    requires
        is_operator_char(c1),
        is_operator_char(c2),
    ensures
        ({
            let s = seq!['('] + dec_seq(a as int) + seq![c1] + dec_seq(b as int) + seq![')']
                + seq![c2] + dec_seq(c as int);
            let inner = binary_node(operator_of(c1), number_leaf(a), number_leaf(b));
            let t = binary_node(operator_of(c2), inner, number_leaf(c));
            &&& parse_spec(s) == Ok::<Expression, ParseError>(t)
            &&& frozen(t) && eval_wf(t) && dice_ok(t)
            &&& eval_of(t) == apply_op(operator_of(c2), apply_op(operator_of(c1), a, b), c)
        }),
{
    let qa = dec_seq(a as int);
    let qb = dec_seq(b as int);
    let qc = dec_seq(c as int);
    let s = seq!['('] + qa + seq![c1] + qb + seq![')'] + seq![c2] + qc;
    let k1 = 1 + qa.len() as int;
    let k2 = k1 + 1 + qb.len() as int;
    let k3 = k2 + 1;
    lemma_dec_seq_val(a as int);
    lemma_dec_seq_val(b as int);
    lemma_dec_seq_val(c as int);
    lemma_digits_no_d(qa);
    lemma_digits_no_d(qb);
    lemma_digits_no_d(qc);

    assert(s.len() == 1 + qa.len() + 1 + qb.len() + 1 + 1 + qc.len());
    assert(s[0] == '(');
    assert(s[k1] == c1);
    assert(s[k2] == ')');
    assert(s[k3] == c2);
    assert(forall|m: int| 1 <= m < k1 ==> s[m] == qa[m - 1]);
    assert(forall|m: int| k1 < m < k2 ==> s[m] == qb[m - k1 - 1]);
    assert(forall|m: int| k3 < m < s.len() ==> s[m] == qc[m - k3 - 1]);
    assert(forall|m: int| 1 <= m < k1 ==> is_digit(s[m]) && !is_marker(s[m]));
    assert(forall|m: int| k1 < m < k2 ==> is_digit(s[m]) && !is_marker(s[m]));
    assert(forall|m: int| k3 < m < s.len() ==> is_digit(s[m]) && !is_marker(s[m]));

    let empty_ops = Seq::<char>::empty();
    let empty_elems = Seq::<Element>::empty();
    let el_a = Element::OperandEl(Operand::Number(a));
    let el_b = Element::OperandEl(Operand::Number(b));
    let el_c = Element::OperandEl(Operand::Number(c));
    let el_op1 = Element::OperatorEl(operator_of(c1));
    let el_op2 = Element::OperatorEl(operator_of(c2));
    assert(is_marker(c1) && c1 != ')' && c1 != '(');
    assert(is_marker(c2) && c2 != ')' && c2 != '(');

    // the opening parenthesis goes straight onto the symbol stack
    assert(s.subrange(0, 0) =~= Seq::<char>::empty());
    assert(push_operand_spec(s.subrange(0, 0), empty_elems) == Ok::<Seq<Element>, ParseError>(
        empty_elems,
    ));
    assert(empty_ops.push('(') =~= seq!['(']);
    assert(push_operator_spec('(', empty_ops, empty_elems) == (seq!['('], empty_elems));
    assert(build_loop_spec(s, 0, 0, empty_ops, empty_elems) == build_loop_spec(
        s,
        1,
        1,
        seq!['('],
        empty_elems,
    ));

    // first numeral; the first operator stops at the parenthesis
    lemma_build_loop_skip(s, 1, k1, 1, seq!['('], empty_elems);
    assert(s.subrange(1, k1) =~= qa);
    assert(operand_spec(qa) == Ok::<Operand, ParseError>(Operand::Number(a)));
    assert(empty_elems.push(el_a) =~= seq![el_a]);
    assert(push_operand_spec(qa, empty_elems) == Ok::<Seq<Element>, ParseError>(seq![el_a]));
    assert(seq!['('].last() == '(');
    assert(shuffle_spec(seq!['('], seq![el_a], Some(precedence_of(c1))) == (
        seq!['('],
        seq![el_a],
    ));
    assert(seq!['('].push(c1) =~= seq!['(', c1]);
    assert(push_operator_spec(c1, seq!['('], seq![el_a]) == (seq!['(', c1], seq![el_a]));
    assert(build_loop_spec(s, k1, 1, seq!['('], empty_elems) == build_loop_spec(
        s,
        k1 + 1,
        k1 + 1,
        seq!['(', c1],
        seq![el_a],
    ));

    // second numeral; the closing parenthesis pops the operator and
    // discards the opening one
    lemma_build_loop_skip(s, k1 + 1, k2, k1 + 1, seq!['(', c1], seq![el_a]);
    let e2 = seq![el_a, el_b];
    assert(s.subrange(k1 + 1, k2) =~= qb);
    assert(operand_spec(qb) == Ok::<Operand, ParseError>(Operand::Number(b)));
    assert(seq![el_a].push(el_b) =~= e2);
    assert(push_operand_spec(qb, seq![el_a]) == Ok::<Seq<Element>, ParseError>(e2));
    let e3 = seq![el_a, el_b, el_op1];
    assert(seq!['(', c1].last() == c1 && seq!['(', c1].drop_last() =~= seq!['(']);
    assert(e2.push(el_op1) =~= e3);
    assert(shuffle_spec(seq!['('], e3, None) == (seq!['('], e3));
    assert(shuffle_spec(seq!['(', c1], e2, None) == (seq!['('], e3));
    assert(seq!['('].drop_last() =~= empty_ops);
    assert(close_paren_spec(seq!['(', c1], e2) == Ok::<(Seq<char>, Seq<Element>), ParseError>((
        empty_ops,
        e3,
    )));
    assert(build_loop_spec(s, k2, k1 + 1, seq!['(', c1], seq![el_a]) == build_loop_spec(
        s,
        k2 + 1,
        k2 + 1,
        empty_ops,
        e3,
    ));

    // the second operator follows at once: its token is empty
    assert(s.subrange(k3, k3) =~= Seq::<char>::empty());
    assert(push_operand_spec(s.subrange(k3, k3), e3) == Ok::<Seq<Element>, ParseError>(e3));
    assert(shuffle_spec(empty_ops, e3, Some(precedence_of(c2))) == (empty_ops, e3));
    assert(empty_ops.push(c2) =~= seq![c2]);
    assert(push_operator_spec(c2, empty_ops, e3) == (seq![c2], e3));
    assert(build_loop_spec(s, k3, k3, empty_ops, e3) == build_loop_spec(
        s,
        k3 + 1,
        k3 + 1,
        seq![c2],
        e3,
    ));
    lemma_build_loop_skip(s, k3 + 1, s.len() as int, k3 + 1, seq![c2], e3);
    assert(build_loop_spec(s, s.len() as int, k3 + 1, seq![c2], e3) == Ok::<
        (int, Seq<char>, Seq<Element>),
        ParseError,
    >((k3 + 1, seq![c2], e3)));

    // trailing numeral, and the flush of the one remaining symbol
    let f4 = seq![el_a, el_b, el_op1, el_c];
    assert(s.skip(k3 + 1) =~= qc);
    assert(operand_spec(qc) == Ok::<Operand, ParseError>(Operand::Number(c)));
    assert(e3.push(el_c) =~= f4);
    assert(push_operand_spec(qc, e3) == Ok::<Seq<Element>, ParseError>(f4));
    let f5 = seq![el_a, el_b, el_op1, el_c, el_op2];
    assert(seq![c2].last() == c2 && seq![c2].drop_last() =~= empty_ops);
    assert(f4.push(el_op2) =~= f5);
    assert(shuffle_spec(empty_ops, f5, None) == (empty_ops, f5));
    assert(shuffle_spec(seq![c2], f4, None) == (empty_ops, f5));

    // tree construction, as for any weaker-last pair
    let leaf_a = number_leaf(a);
    let leaf_b = number_leaf(b);
    let leaf_c = number_leaf(c);
    let inner = binary_node(operator_of(c1), leaf_a, leaf_b);
    let t = binary_node(operator_of(c2), inner, leaf_c);
    let f1 = seq![el_a];
    assert(f5.last() == el_op2 && f5.drop_last() =~= f4);
    assert(f4.last() == el_c && f4.drop_last() =~= e3);
    assert(e3.last() == el_op1 && e3.drop_last() =~= e2);
    assert(e2.last() == el_b && e2.drop_last() =~= f1);
    assert(f1.last() == el_a && f1.drop_last() =~= empty_elems);
    assert(from_stack_rec(f1, 3nat) == (Some(leaf_a), empty_elems));
    assert(from_stack_rec(e2, 3nat) == (Some(leaf_b), f1));
    assert(from_stack_rec(e3, 4nat) == (Some(inner), empty_elems));
    assert(from_stack_rec(f4, 4nat) == (Some(leaf_c), e3));
    assert(from_stack_rec(f5, 5nat) == (Some(t), empty_elems));
    assert(parse_spec(s) == Ok::<Expression, ParseError>(t));

    assert(eval_wf(leaf_a) && frozen(leaf_a) && dice_ok(leaf_a) && eval_of(leaf_a) == a);
    assert(eval_wf(leaf_b) && frozen(leaf_b) && dice_ok(leaf_b) && eval_of(leaf_b) == b);
    assert(eval_wf(leaf_c) && frozen(leaf_c) && dice_ok(leaf_c) && eval_of(leaf_c) == c);
    assert(eval_wf(inner) && frozen(inner) && dice_ok(inner) && eval_of(inner) == apply_op(
        operator_of(c1),
        a,
        b,
    ));
    assert(eval_wf(t) && frozen(t) && dice_ok(t));
    assert(eval_of(t) == apply_op(operator_of(c2), apply_op(operator_of(c1), a, b), c));
}

/// A character that occurs nowhere is neither counted nor found.
proof fn lemma_char_absent(s: Seq<char>, c: char)
    requires
        forall|m: int| 0 <= m < s.len() ==> s[m] != c,
    ensures
        count_char(s, c) == 0,
        find_char(s, c) == -1,
    decreases s.len(),
{
    if s.len() > 0 {
        lemma_char_absent(s.drop_last(), c);
    }
}

/// A character that occurs exactly once is counted once and found there.
proof fn lemma_char_once(s: Seq<char>, c: char, k: int)
    requires
        0 <= k < s.len(),
        s[k] == c,
        forall|m: int| 0 <= m < s.len() && m != k ==> s[m] != c,
    ensures
        count_char(s, c) == 1,
        find_char(s, c) == k,
    decreases s.len(),
{
    let d = s.drop_last();
    if k == s.len() - 1 {
        lemma_char_absent(d, c);
    } else {
        assert(d[k] == c);
        lemma_char_once(d, c, k);
        assert(s.last() != c);
    }
}

/// Parsing a dice token `QdS` on its own gives a single unrolled dice leaf.
pub proof fn lemma_parse_dice(q: u32, sd: u32)
    ensures
        ({
            let s = dec_seq(q as int) + seq!['d'] + dec_seq(sd as int);
            let t = dice_leaf(Dice { quantity: q, sides: sd });
            &&& parse_spec(s) == Ok::<Expression, ParseError>(t)
            &&& eval_wf(t)
        }),
{
    let qq = dec_seq(q as int);
    let qs = dec_seq(sd as int);
    let s = qq + seq!['d'] + qs;
    let k = qq.len() as int;
    lemma_dec_seq_val(q as int);
    lemma_dec_seq_val(sd as int);

    assert(s.len() == qq.len() + 1 + qs.len());
    assert(s[k] == 'd');
    assert(forall|m: int| 0 <= m < k ==> s[m] == qq[m]);
    assert(forall|m: int| k < m < s.len() ==> s[m] == qs[m - k - 1]);
    assert(forall|m: int| 0 <= m < k ==> is_digit(s[m]));
    assert(forall|m: int| k < m < s.len() ==> is_digit(s[m]));
    assert(!is_marker('d'));
    assert(forall|m: int| 0 <= m < s.len() ==> !is_marker(s[m]));

    // no marker anywhere: the whole input is one trailing operand token
    let empty_ops = Seq::<char>::empty();
    let empty_elems = Seq::<Element>::empty();
    lemma_build_loop_skip(s, 0, s.len() as int, 0, empty_ops, empty_elems);
    assert(build_loop_spec(s, s.len() as int, 0, empty_ops, empty_elems) == Ok::<
        (int, Seq<char>, Seq<Element>),
        ParseError,
    >((0, empty_ops, empty_elems)));
    assert(s.skip(0) =~= s);

    // the token splits on its one separator into the two numerals
    assert(forall|m: int| 0 <= m < s.len() && m != k ==> s[m] != 'd');
    lemma_char_once(s, 'd', k);
    assert(s.take(k) =~= qq);
    assert(s.skip(k + 1) =~= qs);
    let d = Dice { quantity: q, sides: sd };
    assert(dice_spec(s) == Ok::<Dice, ParseError>(d));
    assert(operand_spec(s) == Ok::<Operand, ParseError>(Operand::Dice(d)));
    let el_d = Element::OperandEl(Operand::Dice(d));
    assert(empty_elems.push(el_d) =~= seq![el_d]);
    assert(push_operand_spec(s, empty_elems) == Ok::<Seq<Element>, ParseError>(seq![el_d]));

    // nothing to flush; the stack holds the one leaf
    assert(shuffle_spec(empty_ops, seq![el_d], None) == (empty_ops, seq![el_d]));
    let t = dice_leaf(d);
    assert(seq![el_d].last() == el_d && seq![el_d].drop_last() =~= empty_elems);
    assert(from_stack_rec(seq![el_d], 1nat) == (Some(t), empty_elems));
    assert(parse_spec(s) == Ok::<Expression, ParseError>(t));
}

/// A dice leaf can only evaluate to a value of its sampling range.
pub proof fn lemma_dice_leaf_range(d: Dice, v: u32)
    requires
        eval_rel(dice_leaf(d), v),
    ensures
        d.quantity <= v,
        v <= d.quantity * d.sides,
{
}

/// On a frozen well-formed tree there is only one possible evaluation:
/// once rolls are fixed, every evaluation returns the same value.
pub proof fn lemma_frozen_eval_unique(e: Expression, v: u32)
    requires
        frozen(e),
        eval_wf(e),
        eval_rel(e, v),
    ensures
        v == eval_of(e),
    decreases e,
{
    match e.element {
        Element::OperandEl(_) => {},
        Element::OperatorEl(op) => match (e.left, e.right) {
            (Some(l), Some(r)) => {
                let (ga, gb) = choose|ga: u32, gb: u32|
                    #![trigger apply_op(op, ga, gb)]
                    eval_rel(*l, ga) && eval_rel(*r, gb) && v == apply_op(op, ga, gb);
                lemma_frozen_eval_unique(*l, ga);
                lemma_frozen_eval_unique(*r, gb);
            },
            _ => {},
        },
    }
}

/// What freezing produces leaves no dice unrolled.
pub proof fn lemma_freeze_rel_frozen(a: Expression, b: Expression)
    requires
        freeze_rel(a, b),
    ensures
        frozen(b),
    decreases a,
{
    match (a.left, b.left) {
        (Some(x), Some(y)) => lemma_freeze_rel_frozen(*x, *y),
        _ => {},
    }
    match (a.right, b.right) {
        (Some(x), Some(y)) => lemma_freeze_rel_frozen(*x, *y),
        _ => {},
    }
}

/// Freezing keeps the shape and loses no meaning: the frozen tree is
/// well-formed and fully rolled, and its one value is among the values the
/// unfrozen tree could evaluate to.
pub proof fn lemma_freeze_fixes_one_value(a: Expression, b: Expression)
    requires
        freeze_rel(a, b),
        eval_wf(a),
    ensures
        eval_wf(b),
        frozen(b),
        eval_rel(a, eval_of(b)),
    decreases a,
{
    lemma_freeze_rel_frozen(a, b);
    match a.element {
        Element::OperandEl(_) => {},
        Element::OperatorEl(op) => match (a.left, a.right) {
            (Some(l), Some(r)) => match (b.left, b.right) {
                (Some(bl), Some(br)) => {
                    lemma_freeze_fixes_one_value(*l, *bl);
                    lemma_freeze_fixes_one_value(*r, *br);
                    assert(eval_of(b) == apply_op(op, eval_of(*bl), eval_of(*br)));
                },
                _ => {},
            },
            _ => {},
        },
    }
}

} // verus!
