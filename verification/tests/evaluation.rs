use calculator::ast::{ast_gen, Expression, ParseError};
use calculator::env::{default_vars, AngleMode, Function, VarMap, VariableValue};
use calculator::lex::lex;
use calculator::operator::Operator;

fn apply_operator(op: &Operator, left: f64, right: f64) -> f64 {
    match op {
        Operator::Exp => left.powf(right),
        Operator::Mult => left * right,
        Operator::Div => left / right,
        Operator::Plus => left + right,
        Operator::Minus => left - right,
    }
}

fn apply_function(f: &Function, x: f64, mode: AngleMode) -> f64 {
    let x = if f.converts_argument(mode) { x.to_radians() } else { x };
    let y = match f {
        Function::Sin => x.sin(),
        Function::Cos => x.cos(),
        Function::Tan => x.tan(),
        Function::Asin => x.asin(),
        Function::Acos => x.acos(),
        Function::Atan => x.atan(),
        Function::Ceil => x.ceil(),
        Function::Floor => x.floor(),
        Function::Round => x.round(),
        Function::Ln => x.ln(),
        Function::Log => x.log10(),
        Function::Abs => x.abs(),
        Function::Sqrt => x.sqrt(),
    };
    if f.converts_result(mode) {
        y.to_degrees()
    } else {
        y
    }
}

fn get_value(e: &Expression, mode: AngleMode, context: &VarMap) -> Result<f64, ParseError> {
    match e {
        Expression::Binary { op, left, right } => Ok(apply_operator(
            op,
            get_value(left, mode, context)?,
            get_value(right, mode, context)?,
        )),
        Expression::Number(text) => Ok(text.parse::<f64>().unwrap()),
        Expression::Paren(inner) => get_value(inner, mode, context),
        Expression::CallExpresion { arg, func } => {
            let value = get_value(arg, mode, context)?;
            match context.get(func) {
                Some(VariableValue::Function(f)) => Ok(apply_function(f, value, mode)),
                _ => Err(ParseError::NonFunction(func.clone())),
            }
        }
        Expression::Negation(inner) => get_value(inner, mode, context).map(|v| -v),
    }
}

fn eval_math(s: &str, mode: AngleMode) -> Result<f64, String> {
    let vars = default_vars();
    let tokens = lex(s).map_err(|e| e.message())?;
    let tree = ast_gen(tokens, &vars).map_err(|e| e.message())?;
    tree.check_calls(&vars).map_err(|e| e.message())?;
    get_value(&tree, mode, &vars).map_err(|e| e.message())
}

fn to_fixed(f: f64, place: u32) -> f64 {
    let pow_place = 10f64.powi(place as i32);
    (f * pow_place).round() / pow_place
}

#[test]
fn eval_radian_mode() {
    let fixed = 7u32;

    let tests: Vec<(&str, Result<f64, String>)> = vec![
        ("3 + 3 ^ 2", Ok(12.0)),
        ("5 + 3 -", Err("Incomplete expression".into())),
        ("3floor(2.4) + 2", Ok(8.0)),
        ("  1 + 2*   3 ^4+   5 ", Ok(168.0)),
        ("3pi3pi", Ok(88.8264396)),
        ("8E3 / 100 + 30", Ok(110.0)),
        ("sqrt(4E4) / (3 - 1)", Ok(100.0)),
        ("3 .20", Err("Unexpected character \'.\' at index 2".into())),
        ("7 + (3) + 3e2", Ok(26.3096910)),
        ("1 + abs(3 + 2 * -20 - 2) + 3 / 2", Ok(41.5)),
        ("3 + abs - 2", Err("Unexpected operator -".into())),
        ("3 + () / 2", Err("Empty parentheses".into())),
        ("3 + (4 + ((3)) * 3", Err("Incomplete expression".into())),
        ("((((((((3))))) + 4))) - 1 * 2", Ok(5.0)),
        ("((5((2 / 3)3))sqrt(4) + 2) ^ 2 + 2sin(pi) ^ 3", Ok(484.0)),
        ("3+-4*2", Ok(-5.0)),
        ("0*0---e", Ok(-2.7182818)),
        ("-2^2", Ok(-4.0)),
        ("-2*-2", Ok(4.0)),
        ("-(3 + 2)4", Ok(-20.0)),
        ("3-*2", Err("Unexpected character \'*\' at index 2".into())),
        ("3*--abs(-2)", Ok(6.0)),
    ];

    for (expr, result) in tests.into_iter() {
        assert_eq!(
            eval_math(expr, AngleMode::Rad).map(|f| to_fixed(f, fixed)),
            result
        );
    }
}

#[test]
fn precedence_of_exponent_over_addition() {
    assert_eq!(eval_math("3 + 3 ^ 2", AngleMode::Rad), Ok(12.0));
}

#[test]
fn implicit_multiplication() {
    assert_eq!(eval_math("3floor(2.4) + 2", AngleMode::Rad), Ok(8.0));
    assert_eq!(
        eval_math("3pi3pi", AngleMode::Rad).map(|f| to_fixed(f, 7)),
        Ok(88.8264396)
    );
}

#[test]
fn negation_and_exponent() {
    assert_eq!(eval_math("-2^2", AngleMode::Rad), Ok(-4.0));
    assert_eq!(eval_math("-2*-2", AngleMode::Rad), Ok(4.0));
    assert_eq!(eval_math("3*--abs(-2)", AngleMode::Rad), Ok(6.0));
    assert_eq!(eval_math("-(3)^2", AngleMode::Rad), Ok(-9.0));
    assert_eq!(eval_math("--3", AngleMode::Rad), Ok(3.0));
    assert_eq!(eval_math("-pi", AngleMode::Rad), Ok(-std::f64::consts::PI));
}

#[test]
fn nested_grouping() {
    assert_eq!(
        eval_math("((((((((3))))) + 4))) - 1 * 2", AngleMode::Rad),
        Ok(5.0)
    );
}

#[test]
fn exponent_folds_from_the_left() {
    assert_eq!(eval_math("2^3^2", AngleMode::Rad), Ok(64.0));
    assert_eq!(eval_math("100/10/5", AngleMode::Rad), Ok(2.0));
    assert_eq!(eval_math("10-4-3", AngleMode::Rad), Ok(3.0));
}

#[test]
fn literals_evaluate_to_themselves() {
    for v in [0.0f64, 1.0, 3.25, 12345.678, 8e3, 4e-4, 1.5e300, 2.5e-300] {
        let plain = format!("{}", v);
        assert_eq!(eval_math(&plain, AngleMode::Rad), Ok(v));
        assert_eq!(eval_math(&plain, AngleMode::Deg), Ok(v));
        let scientific = format!("{:E}", v);
        assert_eq!(eval_math(&scientific, AngleMode::Rad), Ok(v));
    }
}

#[test]
fn constants_are_the_doubles_of_std() {
    assert_eq!(eval_math("pi", AngleMode::Rad), Ok(std::f64::consts::PI));
    assert_eq!(eval_math("e", AngleMode::Rad), Ok(std::f64::consts::E));
}

#[test]
fn degree_mode_converts_angles() {
    assert_eq!(
        eval_math("sin(90)", AngleMode::Deg).map(|f| to_fixed(f, 7)),
        Ok(1.0)
    );
    assert_eq!(
        eval_math("asin(1)", AngleMode::Deg).map(|f| to_fixed(f, 7)),
        Ok(90.0)
    );
    assert_eq!(
        eval_math("asin(1)", AngleMode::Rad).map(|f| to_fixed(f, 7)),
        Ok(to_fixed(std::f64::consts::FRAC_PI_2, 7))
    );
    assert_eq!(eval_math("sqrt(16)", AngleMode::Deg), Ok(4.0));
}

#[test]
fn division_by_zero_is_no_error() {
    assert_eq!(eval_math("1/0", AngleMode::Rad), Ok(f64::INFINITY));
    assert!(eval_math("0/0", AngleMode::Rad).unwrap().is_nan());
}

#[test]
fn malformed_input_gives_messages() {
    assert_eq!(
        eval_math("5 + 3 -", AngleMode::Rad),
        Err("Incomplete expression".to_string())
    );
    assert_eq!(
        eval_math("3 .20", AngleMode::Rad),
        Err("Unexpected character '.' at index 2".to_string())
    );
    assert_eq!(
        eval_math("3 + () / 2", AngleMode::Rad),
        Err("Empty parentheses".to_string())
    );
    assert_eq!(
        eval_math("2*(", AngleMode::Rad),
        Err("Incomplete expression".to_string())
    );
    assert_eq!(
        eval_math("(", AngleMode::Rad),
        Err("Incomplete expression".to_string())
    );
    assert_eq!(
        eval_math("3 + xyz", AngleMode::Rad),
        Err("Undefined variable \"xyz\"".to_string())
    );
    assert_eq!(
        eval_math("abs 3", AngleMode::Rad),
        Err("Unexpected number 3".to_string())
    );
    assert_eq!(
        eval_math("abs abs(3)", AngleMode::Rad),
        Err("Unexpected variable abs".to_string())
    );
    assert_eq!(
        eval_math("3 abs", AngleMode::Rad),
        Err("Incomplete expression".to_string())
    );
    assert_eq!(
        eval_math("*3", AngleMode::Rad),
        Err("Incomplete expression".to_string())
    );
    assert_eq!(
        eval_math("( )", AngleMode::Rad),
        Err("Incomplete expression".to_string())
    );
}

#[test]
fn rounding_twice_is_rounding_once() {
    for text in ["3pi3pi", "1/3", "2^0.5", "0*0---e", "1E20/7", "ln(2)", "-5/9"] {
        let value = eval_math(text, AngleMode::Rad).unwrap();
        for places in [0u32, 1, 7, 15] {
            let once = to_fixed(value, places);
            assert_eq!(to_fixed(once, places), once);
        }
    }
    assert_eq!(to_fixed(88.82643960980423, 7), 88.8264396);
    assert_eq!(to_fixed(2.5, 0), 3.0);
    assert_eq!(to_fixed(-2.5, 0), -3.0);
}
