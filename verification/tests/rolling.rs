use mundus::rolling::builder::ExpressionBuilder;
use mundus::rolling::dice::{Dice, Roll};
use mundus::rolling::{Element, EvalError, Expression, Operand, Operator, ParseError};

fn eval(text: &str) -> u32 {
    let mut rng = rand::thread_rng();
    let expr = Expression::from_str(text).unwrap();
    assert!(expr.rolls_in_bounds());
    expr.resolve(&mut rng).unwrap()
}

#[test]
fn adds_two_numbers() {
    assert_eq!(eval("4+9"), 13);
    assert_eq!(eval("0+0"), 0);
    assert_eq!(eval("007+1"), 8);
}

#[test]
fn a_single_number_renders_plainly() {
    let expr = Expression::from_str("42").unwrap();
    assert_eq!(expr.render(), "42");
    assert_eq!(eval("42"), 42);
}

#[test]
fn subtraction_saturates_at_zero() {
    assert_eq!(eval("10-3"), 7);
    assert_eq!(eval("7-9"), 0);
}

#[test]
fn division_by_zero_gives_zero() {
    assert_eq!(eval("8/2"), 4);
    assert_eq!(eval("8/0"), 0);
    assert_eq!(eval("7/2"), 3);
}

#[test]
fn multiplication_binds_before_addition() {
    assert_eq!(eval("2+3*4"), 14);
    assert_eq!(eval("6*2+1"), 13);
    assert_eq!(eval("6/2-1"), 2);
}

#[test]
fn parentheses_override_precedence() {
    assert_eq!(eval("(2+3)*4"), 20);
}

#[test]
fn equal_precedence_groups_to_the_right() {
    // 10-(2-3): the inner difference clamps to 0, hence 10, not (10-2)-3 = 5.
    assert_eq!(eval("10-2-3"), 10);
}

#[test]
fn addition_saturates_at_the_top() {
    assert_eq!(eval("4294967295+1"), u32::MAX);
    assert_eq!(eval("4294967295+0"), u32::MAX);
}

#[test]
fn multiplication_saturates_at_the_top() {
    assert_eq!(eval("2147483648*2"), u32::MAX);
    assert_eq!(eval("65536*65536"), u32::MAX);
    assert_eq!(eval("65535*65537"), 4294967295);
    assert_eq!(eval("65535*65535"), 4294836225);
}

#[test]
fn dice_rolls_stay_in_range() {
    let mut rng = rand::thread_rng();
    let expr = Expression::from_str("3d6").unwrap();
    assert!(expr.rolls_in_bounds());
    for _ in 0..100 {
        let v = expr.resolve(&mut rng).unwrap();
        assert!((3..=18).contains(&v));
    }
}

#[test]
fn freezing_fixes_the_value() {
    let mut rng = rand::thread_rng();
    let mut expr = Expression::from_str("3d6+2d4").unwrap();
    assert!(expr.rolls_in_bounds());
    expr.determine(&mut rng);
    let first = expr.resolve(&mut rng).unwrap();
    for _ in 0..20 {
        assert_eq!(expr.resolve(&mut rng).unwrap(), first);
    }
}

#[test]
fn one_sided_dice_roll_is_exact() {
    // the sampling range of QdS is [Q, Q*S]; with one side it has one point
    assert_eq!(eval("5d1"), 5);
    assert_eq!(eval("1d1+2"), 3);
}

#[test]
fn dice_without_sides_is_refused() {
    assert_eq!(Expression::from_str("2d").unwrap_err(), ParseError::MissingSides);
    assert_eq!(Expression::from_str("2d+1").unwrap_err(), ParseError::MissingSides);
}

#[test]
fn dice_with_extra_separators_is_refused() {
    assert_eq!(Expression::from_str("2d6d3").unwrap_err(), ParseError::TooManySeparators);
}

#[test]
fn dice_with_bad_numbers_is_refused() {
    assert_eq!(Expression::from_str("xd6").unwrap_err(), ParseError::InvalidNumber);
    assert_eq!(Expression::from_str("2dx").unwrap_err(), ParseError::InvalidNumber);
    assert_eq!(Expression::from_str("d6").unwrap_err(), ParseError::InvalidNumber);
    assert_eq!(Expression::from_str("99999999999d6").unwrap_err(), ParseError::InvalidNumber);
}

#[test]
fn plain_garbage_is_refused() {
    assert_eq!(Expression::from_str("abc").unwrap_err(), ParseError::MalformedOperand);
    assert_eq!(Expression::from_str("1+abc").unwrap_err(), ParseError::MalformedOperand);
}

#[test]
fn unbalanced_parentheses_are_refused() {
    assert_eq!(Expression::from_str("(1+2").unwrap_err(), ParseError::UnbalancedParentheses);
    assert_eq!(Expression::from_str("1+2)").unwrap_err(), ParseError::UnbalancedParentheses);
}

#[test]
fn empty_input_is_refused() {
    assert_eq!(Expression::from_str("").unwrap_err(), ParseError::EmptyExpression);
}

#[test]
fn degenerate_dice_parse_but_cannot_be_sampled() {
    let expr = Expression::from_str("2d0").unwrap();
    assert!(!expr.rolls_in_bounds());
    let big = Expression::from_str("100000d100000").unwrap();
    assert!(!big.rolls_in_bounds());
}

#[test]
fn render_reproduces_the_input_with_spaces() {
    let expr = Expression::from_str("2d6+1").unwrap();
    assert_eq!(expr.render(), "2d6 + 1");
    let plain = Expression::from_str("(2+3)*4").unwrap();
    assert_eq!(plain.render(), "2 + 3 * 4");
}

#[test]
fn render_after_freezing_shows_the_roll() {
    let mut rng = rand::thread_rng();
    let mut expr = Expression::from_str("2d6+1").unwrap();
    assert!(expr.rolls_in_bounds());
    expr.determine(&mut rng);
    let shown = expr.render();
    assert!(shown.starts_with("2d6 ["));
    assert!(shown.ends_with("] + 1"));
    let inner = &shown["2d6 [".len()..shown.len() - "] + 1".len()];
    let rolled: u32 = inner.parse().unwrap();
    assert!((2..=12).contains(&rolled));
    assert_eq!(expr.resolve(&mut rng).unwrap(), rolled + 1);
}

#[test]
fn dice_parse_reads_quantity_and_sides() {
    let d = Dice::new("3d6").unwrap();
    assert_eq!(d.quantity, 3);
    assert_eq!(d.sides, 6);
    assert_eq!(d.render(), "3d6");
}

#[test]
fn roll_renders_with_its_result() {
    let r = Roll { dice: Dice { quantity: 2, sides: 6 }, result: 7 };
    assert_eq!(r.render(), "2d6 [7]");
}

#[test]
fn operator_symbols_map_to_variants() {
    assert!(matches!(Operator::from('+'), Ok(Operator::Addition)));
    assert!(matches!(Operator::from('-'), Ok(Operator::Subtraction)));
    assert!(matches!(Operator::from('*'), Ok(Operator::Multiplication)));
    assert!(matches!(Operator::from('/'), Ok(Operator::Division)));
    assert!(matches!(Operator::from('x'), Err(ParseError::UnknownOperator)));
}

#[test]
fn operator_precedence_ranks() {
    assert_eq!(Operator::precedence('+'), 0);
    assert_eq!(Operator::precedence('-'), 0);
    assert_eq!(Operator::precedence('*'), 1);
    assert_eq!(Operator::precedence('/'), 1);
    assert_eq!(Operator::precedence('('), 0);
}

#[test]
fn operator_combines_values() {
    assert_eq!(Operator::Addition.operate(2, 3), 5);
    assert_eq!(Operator::Subtraction.operate(2, 3), 0);
    assert_eq!(Operator::Multiplication.operate(6, 7), 42);
    assert_eq!(Operator::Division.operate(7, 0), 0);
    assert_eq!(Operator::Addition.operate(u32::MAX, u32::MAX), u32::MAX);
}

#[test]
fn operand_tokens_parse() {
    assert!(matches!(Operand::from("12"), Ok(Operand::Number(12))));
    assert!(matches!(Operand::from("2d6"), Ok(Operand::Dice(_))));
    assert!(matches!(Operand::from("two"), Err(ParseError::MalformedOperand)));
    assert!(matches!(Operand::from("2d"), Err(ParseError::MissingSides)));
}

#[test]
fn builder_assembles_a_tree() {
    let mut rng = rand::thread_rng();
    let expr = ExpressionBuilder::new().build("1+2*3").unwrap();
    assert_eq!(expr.resolve(&mut rng).unwrap(), 7);
}

#[test]
fn from_stack_builds_right_then_left() {
    let mut stack = vec![
        Element::OperandEl(Operand::Number(10)),
        Element::OperandEl(Operand::Number(4)),
        Element::OperatorEl(Operator::Subtraction),
    ];
    let mut rng = rand::thread_rng();
    let expr = Expression::from_stack(&mut stack).unwrap();
    assert_eq!(expr.resolve(&mut rng).unwrap(), 6);
    assert!(stack.is_empty());
}

#[test]
fn a_lone_operator_makes_a_malformed_tree() {
    let mut rng = rand::thread_rng();
    let expr = Expression::from_str("1+").unwrap();
    assert_eq!(expr.resolve(&mut rng).unwrap_err(), EvalError::MalformedTree);
    let bare = Expression::from_str("+").unwrap();
    assert_eq!(bare.resolve(&mut rng).unwrap_err(), EvalError::MalformedTree);
}

#[test]
fn error_messages_are_short_descriptions() {
    assert_eq!(
        ParseError::EmptyExpression.message(),
        "unable to create expression tree"
    );
    assert_eq!(
        EvalError::MalformedTree.message(),
        "malformed tree, operand(s) absent for binary operator"
    );
}
