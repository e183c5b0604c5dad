use diceval::evaluator::{dice_roll, eval_expr, eval_expr_with, eval_roll, eval_roll_with, Context, EvalError};
use diceval::types::{Dice, Entity, Expr, Operator, Token};

#[test]
fn evaluator_expr() {
    let result = diceval::eval("21+21".to_string()).unwrap();
    assert_eq!(result, (42, "21 + 21".to_string()))
}

#[test]
fn precedence_evaluates_without_division_by_zero() {
    assert_eq!(diceval::eval("42+1/2".to_string()), Ok((42, "42 + 1 ÷ 2".to_string())));
    assert_eq!(diceval::eval("( 42 + 1 ) / 2".to_string()), Ok((21, "(42 + 1) ÷ 2".to_string())));
}

#[test]
fn arithmetic_formulas() {
    assert_eq!(diceval::eval("7-10".to_string()), Ok((-3, "7 - 10".to_string())));
    assert_eq!(diceval::eval("-7".to_string()), Ok((7, "- 7".to_string())));
    assert_eq!(diceval::eval("0-7/2".to_string()), Ok((-3, "0 - 7 ÷ 2".to_string())));
    assert_eq!(diceval::eval("2*3*4".to_string()), Ok((24, "2 × 3 × 4".to_string())));
    assert_eq!(diceval::eval("10-2-3".to_string()), Ok((11, "10 - 2 - 3".to_string())));
}

#[test]
fn division_by_zero_is_an_arithmetic_error() {
    assert_eq!(diceval::eval("1/0".to_string()), Err(EvalError::ArithmeticError));
}

#[test]
fn overflow_is_an_arithmetic_error() {
    assert_eq!(
        diceval::eval("999999*999999*999999*999999".to_string()),
        Err(EvalError::ArithmeticError)
    );
}

#[test]
fn text_without_expression_is_a_parse_failure() {
    assert_eq!(diceval::eval("hello".to_string()), Err(EvalError::ParseFailure));
    assert_eq!(diceval::eval(String::new()), Err(EvalError::ParseFailure));
}

#[test]
fn dice_bounds_are_rejected() {
    let parsed = diceval::parse("1000d6".to_string());
    assert_eq!(parsed, vec![Entity::Expression(Expr::Roll(Dice { face: Some(6), number: 1000 }))]);
    assert_eq!(diceval::eval("1000d6".to_string()), Err(EvalError::DiceBoundsExceeded));
    let parsed = diceval::parse("1d10001".to_string());
    assert_eq!(parsed, vec![Entity::Expression(Expr::Roll(Dice { face: Some(10001), number: 1 }))]);
    assert_eq!(diceval::eval("1d10001".to_string()), Err(EvalError::DiceBoundsExceeded));
    assert_eq!(diceval::eval("1d0".to_string()), Err(EvalError::DiceBoundsExceeded));
    assert!(diceval::eval("999d10000".to_string()).is_ok());
}

#[test]
fn bounds_are_checked_before_arithmetic() {
    assert_eq!(diceval::eval("1/0 + 1000d6".to_string()), Err(EvalError::DiceBoundsExceeded));
}

#[test]
fn bare_die_draws_from_default_face() {
    for _ in 0..50 {
        let (v, trace) = diceval::eval("d".to_string()).unwrap();
        assert!(1 <= v && v <= 100);
        assert_eq!(trace, v.to_string());
    }
}

#[test]
fn context_defaults_to_one_hundred_faces() {
    assert_eq!(Context::new().default_face, 100);
}

#[test]
fn face_one_always_gives_one() {
    let ctx = Context::new();
    assert_eq!(ctx.roll(Some(1)), 1);
    let one = Context { default_face: 1 };
    assert_eq!(one.roll(None), 1);
    let draws = dice_roll(&ctx, Dice { face: Some(1), number: 20 }).unwrap();
    assert_eq!(draws, vec![1; 20]);
}

#[test]
fn draws_stay_within_the_face() {
    let ctx = Context::new();
    let draws = dice_roll(&ctx, Dice { face: Some(6), number: 999 }).unwrap();
    assert_eq!(draws.len(), 999);
    assert!(draws.iter().all(|&x| 1 <= x && x <= 6));
    assert!(draws.iter().any(|&x| x != 1));
    let draws = dice_roll(&ctx, Dice { face: None, number: 300 }).unwrap();
    assert!(draws.iter().all(|&x| 1 <= x && x <= 100));
    assert!(draws.iter().any(|&x| x > 6));
}

#[test]
fn dice_roll_bounds() {
    let ctx = Context::new();
    assert_eq!(dice_roll(&ctx, Dice { face: Some(6), number: 1000 }), Err(EvalError::DiceBoundsExceeded));
    assert_eq!(dice_roll(&ctx, Dice { face: Some(10001), number: 1 }), Err(EvalError::DiceBoundsExceeded));
    assert_eq!(dice_roll(&ctx, Dice { face: Some(6), number: -1 }), Err(EvalError::DiceBoundsExceeded));
    assert_eq!(dice_roll(&ctx, Dice { face: Some(6), number: 0 }), Ok(vec![]));
}

fn roll_of(number: i64, face: i64) -> Expr {
    Expr::Roll(Dice { face: Some(face), number })
}

#[test]
fn tree_evaluation_with_given_draws() {
    let e = roll_of(3, 6);
    assert_eq!(eval_expr_with(&e, &vec![2, 5, 3]), Ok((10, "[2, 5, 3] = 10".to_string())));
    let m = Expr::Prefix(Operator::Max, Box::new(roll_of(3, 6)));
    assert_eq!(eval_expr_with(&m, &vec![2, 5, 3]), Ok((5, "max [2, 5, 3] = 5".to_string())));
    let n = Expr::Prefix(Operator::Min, Box::new(roll_of(3, 6)));
    assert_eq!(eval_expr_with(&n, &vec![2, 5, 3]), Ok((2, "min [2, 5, 3] = 2".to_string())));
    let sum = Expr::Infix(Box::new(roll_of(2, 6)), Operator::Add, Box::new(roll_of(1, 4)));
    assert_eq!(eval_expr_with(&sum, &vec![6, 1, 4]), Ok((11, "[6, 1] = 7 + 4".to_string())));
    let single = Expr::Prefix(Operator::Max, Box::new(roll_of(1, 6)));
    assert_eq!(eval_expr_with(&single, &vec![4]), Ok((4, "max 4".to_string())));
}

#[test]
fn tree_evaluation_draws() {
    let ctx = Context::new();
    let e = Expr::Infix(Box::new(roll_of(1, 1)), Operator::Mul, Box::new(Expr::Num(7)));
    assert_eq!(eval_expr(&ctx, &e), Ok((7, "1 × 7".to_string())));
    let bad = Expr::Infix(Box::new(Expr::Num(1)), Operator::Add, Box::new(roll_of(1000, 6)));
    assert_eq!(eval_expr(&ctx, &bad), Err(EvalError::DiceBoundsExceeded));
}

#[test]
fn flat_roll_sums_with_operators() {
    let ctx = Context::new();
    let roll = vec![Token::Num(21), Token::Operator(Operator::Add), Token::Num(21)];
    assert_eq!(eval_roll(&ctx, roll), Ok((42, "21 + 21".to_string())));
    let roll = vec![Token::Num(10), Token::Operator(Operator::Sub), Token::Num(3), Token::Operator(Operator::Mul), Token::Num(2)];
    assert_eq!(eval_roll(&ctx, roll), Ok((14, "10 - 3 × 2".to_string())));
}

#[test]
fn flat_roll_adds_adjacent_terms() {
    let ctx = Context::new();
    let roll = vec![Token::Num(1), Token::Num(2)];
    assert_eq!(eval_roll(&ctx, roll), Ok((3, "1 2".to_string())));
}

#[test]
fn flat_roll_logs_descriptions_and_variables() {
    let ctx = Context::new();
    let roll = vec![
        Token::Description("attack".to_string()),
        Token::Num(5),
        Token::Variable("str".to_string()),
    ];
    assert_eq!(eval_roll(&ctx, roll), Ok((5, "attack 5 .str(unsupported)".to_string())));
}

#[test]
fn flat_roll_reduces_with_max() {
    let ctx = Context::new();
    let roll = vec![Token::Operator(Operator::Max), Token::Dice(Dice { face: Some(1), number: 3 })];
    assert_eq!(eval_roll(&ctx, roll), Ok((1, "max [1, 1, 1] = 1".to_string())));
    let roll = vec![
        Token::Num(1),
        Token::Operator(Operator::Add),
        Token::Operator(Operator::Min),
        Token::Dice(Dice { face: Some(6), number: 3 }),
    ];
    assert_eq!(
        eval_roll_with(&roll, &vec![4, 2, 6]),
        Ok((3, "1 + min [4, 2, 6] = 2".to_string()))
    );
}

#[test]
fn flat_roll_errors() {
    let ctx = Context::new();
    let roll = vec![Token::Num(1), Token::Operator(Operator::Div), Token::Num(0)];
    assert_eq!(eval_roll(&ctx, roll), Err(EvalError::ArithmeticError));
    let roll = vec![Token::Num(1), Token::Dice(Dice { face: Some(10001), number: 1 })];
    assert_eq!(eval_roll(&ctx, roll), Err(EvalError::DiceBoundsExceeded));
}

#[test]
fn text_evaluation_keeps_descriptions_in_the_trace() {
    assert_eq!(diceval::eval("attack 2+3".to_string()), Ok((5, "attack  2 + 3".to_string())));
    assert_eq!(diceval::eval("1 and 2".to_string()), Ok((3, "1 and  2".to_string())));
}

#[test]
fn text_evaluation_with_given_draws() {
    let es = diceval::parse("hit 2d6 then 1d4".to_string());
    assert_eq!(
        diceval::evaluator::eval_entities_with(&es, &vec![3, 4, 2]),
        Ok((9, "hit  [3, 4] = 7 then  2".to_string()))
    );
}

#[test]
fn renderings() {
    assert_eq!(Operator::Add.show(), "+");
    assert_eq!(Operator::Sub.show(), "-");
    assert_eq!(Operator::Mul.show(), "×");
    assert_eq!(Operator::Div.show(), "÷");
    assert_eq!(Operator::Max.show(), "max");
    assert_eq!(Operator::Min.show(), "min");
    assert_eq!(Dice { face: Some(6), number: 2 }.show(), "2d6");
    assert_eq!(Dice { face: None, number: 1 }.show(), "1d");
    let e = Expr::Infix(
        Box::new(Expr::Child(Box::new(Expr::Num(-42)))),
        Operator::Div,
        Box::new(Expr::Prefix(Operator::Max, Box::new(roll_of(3, 20)))),
    );
    assert_eq!(e.show(), "(-42) ÷ max 3d20");
    assert_eq!(Entity::Expression(e.clone()).show(), "(-42) ÷ max 3d20");
    assert_eq!(Entity::Description("小焰 ".to_string()).show(), "小焰 ");
    assert_eq!(Expr::Num(i64::MIN).show(), "-9223372036854775808");
}
