use infix_calc::eval::arithmetic_operator;
use infix_calc::{
    parse, BinaryOp, Environment, EvalError, Evaluation, Expression, Number, Reply, Step,
};

fn read_number(text: &str) -> Option<Number> {
    text.parse::<f32>().ok().map(number)
}

fn number(value: f32) -> Number {
    Number { bits: value.to_bits() }
}

fn float(number: Number) -> f32 {
    f32::from_bits(number.bits)
}

fn apply(op: BinaryOp, lhs: Number, rhs: Number) -> Number {
    let (lhs, rhs) = (float(lhs), float(rhs));
    number(match op {
        BinaryOp::Add => lhs + rhs,
        BinaryOp::Sub => lhs - rhs,
        BinaryOp::Mul => lhs * rhs,
        BinaryOp::Div => lhs / rhs,
        BinaryOp::Pow => lhs.powf(rhs),
        BinaryOp::Root => lhs.powf(1.0 / rhs),
    })
}

fn evaluate(expr: &Expression, env: &mut Environment) -> Result<Option<f32>, EvalError> {
    assert!(expr.is_evaluable());
    infix_calc::evaluate(expr, env, read_number, apply).map(|shown| shown.map(float))
}

fn step_by_step(expr: &Expression, env: &mut Environment) -> Result<Option<f32>, EvalError> {
    assert!(expr.is_evaluable());
    let mut run = Evaluation::new(expr);
    loop {
        let reply = match run.pending() {
            Step::Done(result) => return result.map(|shown| shown.map(float)),
            Step::Resolve(text) => Reply::Resolved(read_number(text)),
            Step::Compute(op, lhs, rhs) => Reply::Computed(apply(op, lhs, rhs)),
        };
        run = run.resume(env, reply);
    }
}

fn value(line: &str, env: &mut Environment) -> Result<Option<f32>, EvalError> {
    evaluate(&parse(line).unwrap(), env)
}

fn value_in_empty(line: &str) -> Result<Option<f32>, EvalError> {
    value(line, &mut Environment::new())
}

#[test]
fn precedence_respecting_arithmetic() {
    assert_eq!(value_in_empty("2 + 3 * 4"), Ok(Some(14.0)));
    assert_eq!(value_in_empty("2 * 3 + 4"), Ok(Some(10.0)));
    assert_eq!(value_in_empty("1 + 8 / 4 - 2 * 3"), Ok(Some(-3.0)));
    assert_eq!(value_in_empty("7"), Ok(Some(7.0)));
    assert_eq!(value_in_empty("1.5 + .25"), Ok(Some(1.75)));
}

#[test]
fn right_associativity_of_power() {
    assert_eq!(value_in_empty("2 ^ 3 ^ 2"), Ok(Some(512.0)));
}

#[test]
fn left_associativity_of_subtraction() {
    assert_eq!(value_in_empty("8 - 3 - 2"), Ok(Some(3.0)));
    assert_eq!(value_in_empty("16 / 4 / 2"), Ok(Some(2.0)));
}

#[test]
fn parentheses_change_the_value() {
    assert_eq!(value_in_empty("( 2 + 3 ) * 4"), Ok(Some(20.0)));
    assert_eq!(value_in_empty("8 - ( 3 - 2 )"), Ok(Some(7.0)));
}

#[test]
fn root_is_the_power_of_the_inverse() {
    assert_eq!(value_in_empty("9 \u{221a} 2"), Ok(Some(3.0)));
    assert_eq!(value_in_empty("27 \u{221a} 3"), Ok(Some(27.0f32.powf(1.0 / 3.0))));
    assert_eq!(value_in_empty("2 ^ 10"), Ok(Some(1024.0)));
}

#[test]
fn division_by_zero_is_no_failure() {
    assert_eq!(value_in_empty("1 / 0"), Ok(Some(f32::INFINITY)));
    assert_eq!(value_in_empty("0 - 1 / 0"), Ok(Some(f32::NEG_INFINITY)));
    assert!(value_in_empty("0 / 0").unwrap().unwrap().is_nan());
}

#[test]
fn assignment_round_trip() {
    let mut env = Environment::new();
    assert_eq!(value("x = 5", &mut env), Ok(None));
    assert_eq!(env.get("x"), Some(number(5.0)));
    assert_eq!(value("x + 1", &mut env), Ok(Some(6.0)));
}

#[test]
fn assignment_stores_the_value_of_an_expression() {
    let mut env = Environment::new();
    assert_eq!(value("x = 2 + 3 * 4", &mut env), Ok(None));
    assert_eq!(value("y = x * 2", &mut env), Ok(None));
    assert_eq!(value("y", &mut env), Ok(Some(28.0)));
    assert_eq!(value("x", &mut env), Ok(Some(14.0)));
}

#[test]
fn assignment_overwrites() {
    let mut env = Environment::new();
    assert_eq!(value("x = 1", &mut env), Ok(None));
    assert_eq!(value("x = x + 1", &mut env), Ok(None));
    assert_eq!(value("x", &mut env), Ok(Some(2.0)));
}

#[test]
fn undefined_variable() {
    assert_eq!(value_in_empty("y + 1"), Err(EvalError::UndefinedVariable));
    assert_eq!(value_in_empty("1 + y"), Err(EvalError::UndefinedVariable));
    assert_eq!(value_in_empty("y"), Err(EvalError::UndefinedVariable));
    assert_eq!(value_in_empty("1.2.3"), Err(EvalError::UndefinedVariable));
}

#[test]
fn a_failed_assignment_stores_nothing() {
    let mut env = Environment::new();
    assert_eq!(value("x = 5", &mut env), Ok(None));
    assert_eq!(value("x = y + 1", &mut env), Err(EvalError::UndefinedVariable));
    assert_eq!(env.get("x"), Some(number(5.0)));
    assert_eq!(env.get("y"), None);
    assert_eq!(value("z = z", &mut env), Err(EvalError::UndefinedVariable));
    assert_eq!(env.get("z"), None);
}

#[test]
fn invalid_assignment_target() {
    let mut env = Environment::new();
    assert_eq!(value("1 = 2", &mut env), Err(EvalError::InvalidAssignmentTarget));
    assert_eq!(env.get("1"), None);
    assert_eq!(value("a + b = 3", &mut env), Err(EvalError::InvalidAssignmentTarget));
    assert_eq!(value("( x ) = 3", &mut env), Ok(None));
    assert_eq!(value("1 = y", &mut env), Err(EvalError::InvalidAssignmentTarget));
}

#[test]
fn a_name_that_reads_as_a_number_is_no_target() {
    let mut env = Environment::new();
    assert_eq!(value("inf", &mut env), Ok(Some(f32::INFINITY)));
    assert_eq!(value("inf = 1", &mut env), Err(EvalError::InvalidAssignmentTarget));
    assert_eq!(env.get("inf"), None);
}

#[test]
fn a_word_of_dots_can_be_a_variable() {
    let mut env = Environment::new();
    assert_eq!(value(". = 4", &mut env), Ok(None));
    assert_eq!(value(". * 2", &mut env), Ok(Some(8.0)));
}

#[test]
fn is_asign_takes_an_assignment_apart() {
    let tree = parse("x = 1 + 2").unwrap();
    let value = parse("1 + 2").unwrap();
    assert_eq!(tree.is_asign(), Ok(Some(("x", &value))));
}

#[test]
fn is_asign_of_what_is_no_assignment() {
    assert_eq!(parse("1 + 2").unwrap().is_asign(), Ok(None));
    assert_eq!(parse("x").unwrap().is_asign(), Ok(None));
    assert_eq!(Expression::Operation("==", vec![]).is_asign(), Ok(None));
}

#[test]
fn is_asign_wants_an_operand_on_the_left() {
    assert_eq!(parse("a + b = 3").unwrap().is_asign(), Err(EvalError::InvalidAssignmentTarget));
    assert_eq!(
        Expression::Operation("=", vec![Expression::Operand("x")]).is_asign(),
        Err(EvalError::InvalidAssignmentTarget)
    );
    assert_eq!(parse("1 = 2").unwrap().is_asign(), Ok(Some(("1", &Expression::Operand("2")))));
}

#[test]
fn what_can_be_evaluated() {
    assert!(parse("2 + 3 * 4").unwrap().is_evaluable());
    assert!(parse("x = 2 ^ y").unwrap().is_evaluable());
    assert!(parse("a + b = c = d").unwrap().is_evaluable());
    assert!(!parse("x = y = 3").unwrap().is_evaluable());
    assert!(!parse("( x = 2 ) + 1").unwrap().is_evaluable());
    assert!(!Expression::Operation("+", vec![Expression::Operand("1")]).is_evaluable());
    assert!(!Expression::Operation("%", vec![Expression::Operand("1"), Expression::Operand("2")])
        .is_evaluable());
}

#[test]
fn arithmetic_trees() {
    assert!(parse("2 + 3 * 4").unwrap().is_arithmetic());
    assert!(parse("x").unwrap().is_arithmetic());
    assert!(!parse("x = 1").unwrap().is_arithmetic());
    assert!(!parse("1 + ( x = 1 )").unwrap().is_arithmetic());
}

#[test]
fn the_operators_of_arithmetic() {
    assert_eq!(arithmetic_operator("+"), Some(BinaryOp::Add));
    assert_eq!(arithmetic_operator("-"), Some(BinaryOp::Sub));
    assert_eq!(arithmetic_operator("*"), Some(BinaryOp::Mul));
    assert_eq!(arithmetic_operator("/"), Some(BinaryOp::Div));
    assert_eq!(arithmetic_operator("^"), Some(BinaryOp::Pow));
    assert_eq!(arithmetic_operator("\u{221a}"), Some(BinaryOp::Root));
    for word in ["=", "", "(", "++", "x"] {
        assert_eq!(arithmetic_operator(word), None, "word {:?}", word);
    }
}

#[test]
fn step_by_step_gives_what_evaluate_gives() {
    let lines = [
        "2 + 3 * 4",
        "2 ^ 3 ^ 2",
        "( 8 - 3 ) / 0",
        "x = 9 \u{221a} 2",
        "x * x - y",
        "y = x + 1",
        "y / ( x - 3 )",
        "1 = 2",
        "a + b = 3",
        "z",
    ];
    let mut first = Environment::new();
    let mut second = Environment::new();
    for line in lines {
        let tree = parse(line).unwrap();
        let whole = evaluate(&tree, &mut first);
        let stepped = step_by_step(&tree, &mut second);
        assert_eq!(whole.map(|v| v.map(f32::to_bits)), stepped.map(|v| v.map(f32::to_bits)));
        for name in ["x", "y", "z", "a", "b", "1"] {
            assert_eq!(first.get(name), second.get(name), "{:?} after {:?}", name, line);
        }
    }
    assert_eq!(first.get("x"), Some(number(3.0)));
    assert_eq!(first.get("y"), Some(number(4.0)));
}

#[test]
fn evaluate_asks_its_two_functions() {
    let tree = parse("a + b * c").unwrap();
    let mut env = Environment::new();
    let ones = |_: &str| Some(number(1.0));
    let left = |_: BinaryOp, lhs: Number, _: Number| lhs;
    assert_eq!(infix_calc::evaluate(&tree, &mut env, ones, left), Ok(Some(number(1.0))));
    let none = |_: &str| None;
    assert_eq!(
        infix_calc::evaluate(&tree, &mut env, none, left),
        Err(EvalError::UndefinedVariable)
    );
    env.insert("a", number(2.0));
    env.insert("b", number(3.0));
    env.insert("c", number(4.0));
    assert_eq!(infix_calc::evaluate(&tree, &mut env, none, apply), Ok(Some(number(14.0))));
}

#[test]
fn the_steps_of_an_evaluation() {
    let tree = parse("x - 3").unwrap();
    let mut env = Environment::new();
    env.insert("x", number(8.0));
    let run = Evaluation::new(&tree);
    assert_eq!(run.pending(), Step::Resolve("x"));
    let run = run.resume(&mut env, Reply::Resolved(None));
    assert_eq!(run.pending(), Step::Resolve("3"));
    let run = run.resume(&mut env, Reply::Resolved(Some(number(3.0))));
    assert_eq!(run.pending(), Step::Compute(BinaryOp::Sub, number(8.0), number(3.0)));
    let run = run.resume(&mut env, Reply::Computed(number(5.0)));
    assert_eq!(run.pending(), Step::Done(Ok(Some(number(5.0)))));
}

#[test]
fn the_left_operand_is_taken_first() {
    let tree = parse("( a - b ) * ( c + d )").unwrap();
    let mut env = Environment::new();
    let mut asked = Vec::new();
    let mut run = Evaluation::new(&tree);
    loop {
        let reply = match run.pending() {
            Step::Done(result) => {
                assert_eq!(result, Ok(Some(number(0.0))));
                break;
            },
            Step::Resolve(text) => {
                asked.push(text.to_string());
                Reply::Resolved(Some(number(0.0)))
            },
            Step::Compute(op, _, _) => {
                asked.push(format!("{:?}", op));
                Reply::Computed(number(0.0))
            },
        };
        run = run.resume(&mut env, reply);
    }
    assert_eq!(asked, vec!["a", "b", "Sub", "c", "d", "Add", "Mul"]);
}

#[test]
fn the_steps_of_an_assignment() {
    let tree = parse("x = 4").unwrap();
    let mut env = Environment::new();
    let run = Evaluation::new(&tree);
    assert_eq!(run.pending(), Step::Resolve("x"));
    let run = run.resume(&mut env, Reply::Resolved(None));
    assert_eq!(run.pending(), Step::Resolve("4"));
    assert_eq!(env.get("x"), None);
    let run = run.resume(&mut env, Reply::Resolved(Some(number(4.0))));
    assert_eq!(run.pending(), Step::Done(Ok(None)));
    assert_eq!(env.get("x"), Some(number(4.0)));
}

#[test]
fn an_invalid_target_fails_before_the_first_step() {
    let tree = parse("a + b = 3").unwrap();
    let run = Evaluation::new(&tree);
    assert_eq!(run.pending(), Step::Done(Err(EvalError::InvalidAssignmentTarget)));
}

#[test]
fn a_reply_of_the_wrong_kind_changes_nothing() {
    let tree = parse("1 + 2").unwrap();
    let mut env = Environment::new();
    let run = Evaluation::new(&tree);
    let run = run.resume(&mut env, Reply::Computed(number(9.0)));
    assert_eq!(run.pending(), Step::Resolve("1"));
    let run = run.resume(&mut env, Reply::Resolved(Some(number(1.0))));
    let run = run.resume(&mut env, Reply::Resolved(Some(number(2.0))));
    assert_eq!(run.pending(), Step::Compute(BinaryOp::Add, number(1.0), number(2.0)));
    let run = run.resume(&mut env, Reply::Resolved(Some(number(9.0))));
    assert_eq!(run.pending(), Step::Compute(BinaryOp::Add, number(1.0), number(2.0)));
}

#[test]
fn a_reply_after_the_end_changes_nothing() {
    let tree = parse("x = 1").unwrap();
    let mut env = Environment::new();
    let run = Evaluation::new(&tree);
    let run = run.resume(&mut env, Reply::Resolved(None));
    let run = run.resume(&mut env, Reply::Resolved(Some(number(1.0))));
    assert_eq!(run.pending(), Step::Done(Ok(None)));
    let run = run.resume(&mut env, Reply::Resolved(Some(number(7.0))));
    let run = run.resume(&mut env, Reply::Computed(number(7.0)));
    assert_eq!(run.pending(), Step::Done(Ok(None)));
    assert_eq!(env.get("x"), Some(number(1.0)));
}

#[test]
fn a_number_is_not_looked_up() {
    let mut env = Environment::new();
    env.insert("5", number(1.0));
    assert_eq!(value("5 + 1", &mut env), Ok(Some(6.0)));
}

#[test]
fn variables_are_kept_by_name() {
    let mut env = Environment::new();
    assert_eq!(env.get("x"), None);
    env.insert("x", number(1.0));
    env.insert("y", number(2.0));
    env.insert("x", number(3.0));
    assert_eq!(env.get("x"), Some(number(3.0)));
    assert_eq!(env.get("y"), Some(number(2.0)));
    assert_eq!(env.get("X"), None);
    assert_eq!(env.get(""), None);
}
