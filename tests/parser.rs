use diceval::types::{Dice, Entity, Expr, Int, Operator};

fn dice(number: Int, face: Int) -> Dice {
    Dice {
        face: Some(face),
        number,
    }
}

fn roll(dice: Dice) -> Entity {
    Entity::Expression(Expr::Roll(dice))
}

#[test]
fn _2d6() {
    let roll_1d6 = vec![roll(dice(2, 6))];
    let parsed = diceval::parse("2d6".to_string());
    assert_eq!(roll_1d6, parsed);
}

#[test]
fn d() {
    let dice_d = Dice {
        face: None,
        number: 1,
    };
    let roll_d = vec![roll(dice_d)];
    let parsed = diceval::parse("d".to_string());
    assert_eq!(roll_d, parsed);
}

fn desc<T: ToString>(s: T) -> Entity {
    Entity::Description(s.to_string())
}

#[test]
fn pure_description() {
    let s = "晓美焰".to_string();
    let roll_d = vec![desc(s.clone())];
    let parsed = diceval::parse(s);
    assert_eq!(roll_d, parsed);
    let s = "鹿目圆香d      d晓美焰";
    let roll_d = vec![desc(s)];
    let parsed = diceval::parse(s.to_string());
    assert_eq!(roll_d, parsed);
}

#[test]
fn description_and_roll1() {
    let dice_d = Dice {
        face: None,
        number: 1,
    };
    let roll_d = vec![desc("小圆roll了 "), roll(dice_d)];
    let parsed = diceval::parse("小圆roll了 d".to_string());
    assert_eq!(roll_d, parsed);

    let dice_d = Dice {
        face: Some(100),
        number: 4,
    };
    let roll_d = vec![desc("小圆roll了 "), roll(dice_d)];
    let parsed = diceval::parse("小圆roll了 4d100".to_string());
    assert_eq!(roll_d, parsed);

    let dice_d = Dice {
        face: Some(100),
        number: 4,
    };
    let roll_d = vec![desc("小圆roll了"), roll(dice_d), desc("小焰")];
    let parsed = diceval::parse("小圆roll了4d100小焰".to_string());
    assert_eq!(roll_d, parsed);
}

fn add(l: Expr, r: Expr) -> Expr {
    Expr::Infix(Box::new(l), Operator::Add, Box::new(r))
}

fn div(l: Expr, r: Expr) -> Expr {
    Expr::Infix(Box::new(l), Operator::Div, Box::new(r))
}

fn mul(l: Expr, r: Expr) -> Expr {
    Expr::Infix(Box::new(l), Operator::Mul, Box::new(r))
}

fn sub(l: Expr, r: Expr) -> Expr {
    Expr::Infix(Box::new(l), Operator::Sub, Box::new(r))
}

fn number(n: Int) -> Expr {
    Expr::Num(n)
}

fn max(e: Expr) -> Expr {
    Expr::Prefix(Operator::Max, Box::new(e))
}

fn min(e: Expr) -> Expr {
    Expr::Prefix(Operator::Min, Box::new(e))
}

fn child(e: Expr) -> Expr {
    Expr::Child(Box::new(e))
}

#[test]
fn parser_expr() {
    let x = number(42);
    let y = number(1);
    let z = number(2);

    let result = vec![Entity::Expression(add(x, div(y, z)))];
    let parsed = diceval::parse("42+1/2".to_string());
    assert_eq!(parsed, result);

    let x = number(42);
    let y = number(1);
    let z = number(2);
    let result = vec![Entity::Expression(div(child(add(x, y)), z))];
    let parsed = diceval::parse("( 42 + 1 ) / 2".to_string());
    assert_eq!(parsed, result);

    let x = number(42);
    let y = number(1);
    let z = number(2);
    let result = vec![Entity::Expression(add(x, add(y, z)))];
    let parsed = diceval::parse("42 + 1 + 2".to_string());
    assert_eq!(parsed, result);

    let result = vec![Entity::Description("max max max".to_string())];
    let parsed = diceval::parse("max max max".to_string());
    assert_eq!(parsed, result);

    let max_42 = max(number(42));
    let result = vec![Entity::Expression(max(max(max_42)))];
    let parsed = diceval::parse("max max max 42".to_string());
    assert_eq!(parsed, result);
}

#[test]
fn empty_text_has_no_entities() {
    assert_eq!(diceval::parse(String::new()), Vec::<Entity>::new());
}

#[test]
fn mixed_description_and_roll() {
    let parsed = diceval::parse("小圆roll了 4d100小焰除3".to_string());
    assert_eq!(
        parsed,
        vec![
            desc("小圆roll了 "),
            roll(dice(4, 100)),
            desc("小焰除"),
            Entity::Expression(number(3)),
        ]
    );
}

#[test]
fn bare_die_has_default_face() {
    let parsed = diceval::parse("d".to_string());
    assert_eq!(parsed, vec![roll(Dice::default())]);
    assert_eq!(Dice::default(), Dice { face: None, number: 1 });
}

#[test]
fn upper_case_die_marker() {
    assert_eq!(diceval::parse("3D8".to_string()), vec![roll(dice(3, 8))]);
}

#[test]
fn die_before_a_letter_is_description() {
    assert_eq!(diceval::parse("do".to_string()), vec![desc("do")]);
    assert_eq!(diceval::parse("2dx".to_string()), vec![Entity::Expression(number(2)), desc("dx")]);
}

#[test]
fn long_numeral_is_description() {
    assert_eq!(diceval::parse("1234567".to_string()), vec![desc("1234567")]);
    assert_eq!(diceval::parse("123456".to_string()), vec![Entity::Expression(number(123456))]);
    assert_eq!(
        diceval::parse("1d1234567".to_string()),
        vec![Entity::Expression(number(1)), desc("d1234567")]
    );
}

#[test]
fn multiplication_binds_tighter_than_addition() {
    let parsed = diceval::parse("1 - 2 * 3 + 4".to_string());
    assert_eq!(
        parsed,
        vec![Entity::Expression(sub(number(1), add(mul(number(2), number(3)), number(4))))]
    );
}

#[test]
fn chinese_operator_keywords() {
    assert_eq!(
        diceval::parse("3乘2加1".to_string()),
        vec![Entity::Expression(add(mul(number(3), number(2)), number(1)))]
    );
    assert_eq!(
        diceval::parse("6÷2减1".to_string()),
        vec![Entity::Expression(sub(div(number(6), number(2)), number(1)))]
    );
    assert_eq!(
        diceval::parse("最大3d6".to_string()),
        vec![Entity::Expression(max(Expr::Roll(dice(3, 6))))]
    );
    assert_eq!(
        diceval::parse("最小 2d20".to_string()),
        vec![Entity::Expression(min(Expr::Roll(dice(2, 20))))]
    );
}

#[test]
fn prefix_keywords_ignore_ascii_case() {
    assert_eq!(diceval::parse("MAX 2".to_string()), vec![Entity::Expression(max(number(2)))]);
    assert_eq!(diceval::parse("MiN 2".to_string()), vec![Entity::Expression(min(number(2)))]);
}

#[test]
fn full_width_parentheses() {
    assert_eq!(
        diceval::parse("（1+2）×3".to_string()),
        vec![Entity::Expression(mul(child(add(number(1), number(2))), number(3)))]
    );
}

#[test]
fn unclosed_parenthesis_falls_back_to_description() {
    assert_eq!(
        diceval::parse("(1+2".to_string()),
        vec![desc("("), Entity::Expression(add(number(1), number(2)))]
    );
}

#[test]
fn whitespace_after_an_expression_is_consumed() {
    assert_eq!(
        diceval::parse("2d6 hello 3".to_string()),
        vec![roll(dice(2, 6)), desc("hello "), Entity::Expression(number(3))]
    );
}

#[test]
fn adjacent_descriptions_are_joined() {
    let parsed = diceval::parse("a,b!c 1 x y".to_string());
    assert_eq!(
        parsed,
        vec![desc("a,b!c "), Entity::Expression(number(1)), desc("x y")]
    );
    for pair in parsed.windows(2) {
        let both = matches!(pair[0], Entity::Description(_)) && matches!(pair[1], Entity::Description(_));
        assert!(!both);
    }
}

#[test]
fn segmentation_keeps_all_content() {
    let text = "roll 2d6+1 for 小焰!";
    let parsed = diceval::parse(text.to_string());
    let joined: String = parsed.iter().map(|e| e.show()).collect::<Vec<String>>().join("");
    assert_eq!(joined, "roll 2d6 + 1for 小焰!");
}

#[test]
fn parser_functions_at_positions() {
    let s: Vec<char> = "  12d6 max".chars().collect();
    assert_eq!(diceval::parser::skip_spaces(&s, 0), 2);
    assert_eq!(diceval::parser::number(&s, 2), Some((12, 4)));
    assert_eq!(diceval::parser::dice(&s, 2), Some((dice(12, 6), 6)));
    assert_eq!(diceval::parser::prefix(&s, 7), Some((Operator::Max, 10)));
    assert!(diceval::parser::insensitive_string(&s, 7, "MAX"));
    assert!(!diceval::parser::insensitive_string(&s, 7, "min"));
    let ops: Vec<char> = "+减×/".chars().collect();
    assert_eq!(diceval::parser::infix_1(&ops, 0), Some(Operator::Add));
    assert_eq!(diceval::parser::infix_1(&ops, 1), Some(Operator::Sub));
    assert_eq!(diceval::parser::infix_2(&ops, 2), Some(Operator::Mul));
    assert_eq!(diceval::parser::infix_2(&ops, 3), Some(Operator::Div));
    assert_eq!(diceval::parser::infix_2(&ops, 0), None);
}

#[test]
fn expression_parsers_report_end_positions() {
    let s: Vec<char> = "2*3 + 4 rest".chars().collect();
    assert_eq!(diceval::parser::terminal_(&s, 0), Some((number(2), 1)));
    assert_eq!(diceval::parser::expr_2_(&s, 0), Some((mul(number(2), number(3)), 3)));
    assert_eq!(
        diceval::parser::expr_(&s, 0),
        Some((add(mul(number(2), number(3)), number(4)), 7))
    );
    let (e, next) = diceval::parser::entity(&s, 0);
    assert_eq!(e, Entity::Expression(add(mul(number(2), number(3)), number(4))));
    assert_eq!(next, 8);
    assert_eq!(diceval::parser::entities(&s).len(), 2);
}
