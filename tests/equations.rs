use four_equals_ten::equations::{Equation, Op, Parens};
use four_equals_ten::rational::{EvalError, Rational};

fn ints(v: &[i64]) -> Vec<Rational> {
    v.iter().map(|n| Rational::from_int(*n)).collect()
}

fn expr(nums: &[i64], ops: Vec<Op>, parens: Parens) -> Equation {
    Equation::new(ints(nums), ops, parens)
}

#[test]
fn multiplication_binds_before_addition() {
    let e = expr(&[2, 3, 4], vec![Op::Add, Op::Mul], Parens::Unbracketed);
    let v = e.solve().unwrap();
    assert!(v.same_value(&Rational::from_int(14)));
    assert!(!v.same_value(&Rational::from_int(20)));
}

#[test]
fn subtraction_associates_to_the_left() {
    let e = expr(&[10, 2, 1], vec![Op::Sub, Op::Sub], Parens::Unbracketed);
    assert_eq!(e.solve(), Ok(Rational::from_int(7)));
}

#[test]
fn span_is_reduced_before_any_operator() {
    let e = expr(&[1, 0, 6, 3], vec![Op::Sub, Op::Sub, Op::Sub], Parens::Span(1, 3));
    assert_eq!(e.solve(), Ok(Rational::from_int(10)));
}

#[test]
fn format_shows_the_span() {
    let e = expr(&[1, 0, 6, 3], vec![Op::Sub, Op::Sub, Op::Sub], Parens::Span(1, 3));
    assert_eq!(e.format(), "1 - (0 - 6 - 3)");
}

#[test]
fn format_shows_every_symbol() {
    let e = expr(
        &[1, 2, 3, 4, 5, 6, 7],
        vec![Op::Add, Op::Mul, Op::Sub, Op::Div, Op::Mod, Op::Exp],
        Parens::Span(0, 1),
    );
    assert_eq!(e.format(), "(1 + 2) * 3 - 4 / 5 % 6 ^ 7");
}

#[test]
fn format_of_a_solved_value() {
    assert_eq!(Equation::Solved(Rational::from_int(-12)).format(), "-12");
    assert_eq!(Equation::Solved(Rational::new(6, 3).unwrap()).format(), "2");
    assert_eq!(Equation::Solved(Rational::new(5, 2).unwrap()).format(), "5/2");
    assert_eq!(Equation::Solved(Rational::new(-5, 2).unwrap()).format(), "-5/2");
    assert_eq!(Equation::Solved(Rational::from_int(0)).format(), "0");
    assert_eq!(Equation::Solved(Rational::from_int(i64::MIN)).format(), "-9223372036854775808");
}

#[test]
fn division_by_zero_fails_the_evaluation() {
    let e = expr(&[4, 0], vec![Op::Div], Parens::Unbracketed);
    assert_eq!(e.solve(), Err(EvalError::DivisionByZero));
    let e = expr(&[7, 3, 0], vec![Op::Add, Op::Div], Parens::Unbracketed);
    assert_eq!(e.solve(), Err(EvalError::DivisionByZero));
}

#[test]
fn modulo_by_zero_fails_the_evaluation() {
    let e = expr(&[4, 0], vec![Op::Mod], Parens::Unbracketed);
    assert_eq!(e.solve(), Err(EvalError::ModuloByZero));
}

#[test]
fn zero_to_a_negative_power_fails() {
    let e = expr(&[0, 0, 2], vec![Op::Exp, Op::Sub], Parens::Span(1, 2));
    assert_eq!(e.solve(), Err(EvalError::DivisionByZero));
}

#[test]
fn exponent_binds_first_and_takes_the_left_operand_as_base() {
    let e = expr(&[2, 3, 2], vec![Op::Mul, Op::Exp], Parens::Unbracketed);
    assert_eq!(e.solve(), Ok(Rational::from_int(18)));
    let e = expr(&[2, 10], vec![Op::Exp], Parens::Unbracketed);
    assert_eq!(e.solve(), Ok(Rational::from_int(1024)));
    let e = expr(&[0, 0], vec![Op::Exp], Parens::Unbracketed);
    assert_eq!(e.solve(), Ok(Rational::from_int(1)));
}

#[test]
fn negative_exponent_turns_the_fraction_over() {
    let e = expr(&[2, 1, 3], vec![Op::Exp, Op::Sub], Parens::Span(1, 2));
    let v = e.solve().unwrap();
    assert!(v.same_value(&Rational::new(1, 4).unwrap()));
    let e = expr(&[-2, 1, 4], vec![Op::Exp, Op::Sub], Parens::Span(1, 2));
    let v = e.solve().unwrap();
    assert!(v.same_value(&Rational::new(-1, 8).unwrap()));
    assert!(v.den > 0);
}

#[test]
fn fractional_exponent_is_reported() {
    let e = expr(&[4, 1, 2], vec![Op::Exp, Op::Div], Parens::Span(1, 2));
    assert_eq!(e.solve(), Err(EvalError::FractionalExponent));
}

#[test]
fn division_is_exact() {
    let e = expr(&[1, 3, 3], vec![Op::Div, Op::Mul], Parens::Unbracketed);
    let v = e.solve().unwrap();
    assert!(v.same_value(&Rational::from_int(1)));
    assert_eq!(Equation::Solved(v).format(), "1");
}

#[test]
fn remainder_takes_the_sign_of_the_dividend() {
    let e = expr(&[0, 7, 3], vec![Op::Sub, Op::Mod], Parens::Span(0, 1));
    assert_eq!(e.solve(), Ok(Rational::from_int(-1)));
    let e = expr(&[7, 0, 3], vec![Op::Mod, Op::Sub], Parens::Span(1, 2));
    assert_eq!(e.solve(), Ok(Rational::from_int(1)));
    let e = expr(&[7, 2, 3], vec![Op::Div, Op::Mod], Parens::Span(0, 1));
    let v = e.solve().unwrap();
    assert!(v.same_value(&Rational::new(1, 2).unwrap()));
}

#[test]
fn overflow_is_reported() {
    let e = expr(&[10, 30], vec![Op::Exp], Parens::Unbracketed);
    assert_eq!(e.solve(), Err(EvalError::Overflow));
    let e = expr(&[i64::MAX, 1], vec![Op::Add], Parens::Unbracketed);
    assert_eq!(e.solve(), Err(EvalError::Overflow));
}

#[test]
fn malformed_expressions_are_reported() {
    let e = expr(&[1, 2, 3], vec![Op::Add], Parens::Unbracketed);
    assert_eq!(e.solve(), Err(EvalError::Malformed));
    let e = expr(&[1, 2, 3], vec![Op::Add, Op::Add], Parens::Span(1, 3));
    assert_eq!(e.solve(), Err(EvalError::Malformed));
    let e = expr(&[1, 2, 3], vec![Op::Add, Op::Add], Parens::Span(1, 1));
    assert_eq!(e.solve(), Err(EvalError::Malformed));
    let e = expr(&[1], vec![], Parens::Unbracketed);
    assert_eq!(e.solve(), Err(EvalError::Malformed));
    let e = Equation::new(vec![Rational { num: 1, den: 0 }, Rational::from_int(1)], vec![Op::Add], Parens::Unbracketed);
    assert_eq!(e.solve(), Err(EvalError::Malformed));
}

#[test]
fn solved_value_is_returned() {
    assert_eq!(Equation::Solved(Rational::from_int(5)).solve(), Ok(Rational::from_int(5)));
}

#[test]
fn from_comp_collapses_a_single_operand() {
    match Equation::from_comp(ints(&[9]), vec![]) {
        Equation::Solved(v) => assert_eq!(v, Rational::from_int(9)),
        _ => panic!("expected a solved value"),
    }
    match Equation::from_comp(ints(&[1, 2]), vec![Op::Add]) {
        Equation::Expression { nums, ops, parens } => {
            assert_eq!(nums.len(), 2);
            assert_eq!(ops, vec![Op::Add]);
            assert_eq!(parens, Parens::Unbracketed);
        }
        _ => panic!("expected an expression"),
    }
}

#[test]
fn rational_new_moves_the_sign() {
    assert_eq!(Rational::new(3, -4), Some(Rational { num: -3, den: 4 }));
    assert_eq!(Rational::new(3, 0), None);
    assert_eq!(Rational::new(i64::MIN, -1), None);
    assert!(Rational::new(1, 2).unwrap().same_value(&Rational::new(2, 4).unwrap()));
}

#[test]
fn well_formedness_check() {
    assert!(expr(&[1, 2], vec![Op::Add], Parens::Unbracketed).is_well_formed());
    assert!(!expr(&[1, 2], vec![], Parens::Unbracketed).is_well_formed());
}
