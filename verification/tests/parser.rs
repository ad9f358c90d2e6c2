use calculator::ast::{ast_gen, ContextualizedTokens, Expression, ParseError};
use calculator::env::{default_vars, AngleMode, Function, VarMap, VariableValue};
use calculator::lex::lex;
use calculator::operator::Operator;
use calculator::token::Token;

fn num(text: &str) -> Expression {
    Expression::Number(text.to_string())
}

fn binary(op: Operator, left: Expression, right: Expression) -> Expression {
    Expression::Binary {
        op,
        left: Box::new(left),
        right: Box::new(right),
    }
}

fn neg(e: Expression) -> Expression {
    Expression::Negation(Box::new(e))
}

fn paren(e: Expression) -> Expression {
    Expression::Paren(Box::new(e))
}

fn call(func: &str, arg: Expression) -> Expression {
    Expression::CallExpresion {
        arg: Box::new(arg),
        func: func.to_string(),
    }
}

fn parse(text: &str) -> Result<Expression, ParseError> {
    ast_gen(lex(text).unwrap(), &default_vars())
}

const PI: &str = "3.141592653589793";

#[test]
fn tiers_fold_from_the_tightest() {
    assert_eq!(
        parse("3 + 3 ^ 2"),
        Ok(binary(
            Operator::Plus,
            num("3"),
            binary(Operator::Exp, num("3"), num("2"))
        ))
    );
    assert_eq!(
        parse("1 + 2 * 3 ^ 4 + 5"),
        Ok(binary(
            Operator::Plus,
            binary(
                Operator::Plus,
                num("1"),
                binary(
                    Operator::Mult,
                    num("2"),
                    binary(Operator::Exp, num("3"), num("4"))
                )
            ),
            num("5")
        ))
    );
}

#[test]
fn operators_of_one_tier_fold_from_the_left() {
    assert_eq!(
        parse("8/4*2"),
        Ok(binary(
            Operator::Mult,
            binary(Operator::Div, num("8"), num("4")),
            num("2")
        ))
    );
    assert_eq!(
        parse("2^3^4"),
        Ok(binary(
            Operator::Exp,
            binary(Operator::Exp, num("2"), num("3")),
            num("4")
        ))
    );
    assert_eq!(
        parse("1-2+3-4"),
        Ok(binary(
            Operator::Minus,
            binary(
                Operator::Plus,
                binary(Operator::Minus, num("1"), num("2")),
                num("3")
            ),
            num("4")
        ))
    );
}

#[test]
fn multiplication_is_implied_between_operands() {
    assert_eq!(
        parse("3pi3pi"),
        Ok(binary(
            Operator::Mult,
            binary(
                Operator::Mult,
                binary(Operator::Mult, num("3"), num(PI)),
                num("3")
            ),
            num(PI)
        ))
    );
    assert_eq!(
        parse("3floor(2.4) + 2"),
        Ok(binary(
            Operator::Plus,
            binary(Operator::Mult, num("3"), call("floor", num("2.4"))),
            num("2")
        ))
    );
    assert_eq!(
        parse("(1)(2)"),
        Ok(binary(Operator::Mult, paren(num("1")), paren(num("2"))))
    );
}

#[test]
fn negation_binds_looser_than_exponent_only() {
    assert_eq!(
        parse("-2^2"),
        Ok(neg(binary(Operator::Exp, num("2"), num("2"))))
    );
    assert_eq!(
        parse("--2^-3"),
        Ok(neg(neg(binary(Operator::Exp, num("2"), neg(num("3"))))))
    );
    assert_eq!(
        parse("-2*-2"),
        Ok(binary(Operator::Mult, neg(num("2")), neg(num("2"))))
    );
    assert_eq!(
        parse("-2^2^2"),
        Ok(neg(binary(
            Operator::Exp,
            binary(Operator::Exp, num("2"), num("2")),
            num("2")
        )))
    );
}

#[test]
fn negation_marks_wrap_the_operand_behind_them() {
    assert_eq!(parse("--3"), Ok(neg(neg(num("3")))));
    assert_eq!(parse("-pi"), Ok(neg(num(PI))));
    assert_eq!(parse("-(3)"), Ok(neg(paren(num("3")))));
    assert_eq!(
        parse("3*--abs(-2)"),
        Ok(binary(
            Operator::Mult,
            num("3"),
            neg(neg(call("abs", neg(num("2")))))
        ))
    );
    assert_eq!(
        parse("-(3 + 2)4"),
        Ok(binary(
            Operator::Mult,
            neg(paren(binary(Operator::Plus, num("3"), num("2")))),
            num("4")
        ))
    );
}

#[test]
fn groups_nest() {
    assert_eq!(
        parse("((3)) - 1"),
        Ok(binary(
            Operator::Minus,
            paren(paren(num("3"))),
            num("1")
        ))
    );
}

#[test]
fn undefined_identifier() {
    assert_eq!(
        parse("3 + xyz"),
        Err(ParseError::UndefinedIdent("xyz".to_string()))
    );
    assert_eq!(
        parse("(1 + (nope))"),
        Err(ParseError::UndefinedIdent("nope".to_string()))
    );
}

#[test]
fn unexpected_token() {
    assert_eq!(
        parse("3 + abs - 2"),
        Err(ParseError::UnexpectedToken(Token::Op(Operator::Minus)))
    );
    assert_eq!(
        parse("abs 3"),
        Err(ParseError::UnexpectedToken(Token::Number("3".to_string())))
    );
    assert_eq!(
        parse("abs sin(3)"),
        Err(ParseError::UnexpectedToken(Token::Var("sin".to_string())))
    );
    let vars = default_vars();
    assert_eq!(
        ast_gen(
            vec![Token::Var("abs".to_string()), Token::Negation],
            &vars
        ),
        Err(ParseError::UnexpectedToken(Token::Negation))
    );
    assert_eq!(
        ast_gen(
            vec![
                Token::Number("1".to_string()),
                Token::Number("2".to_string())
            ],
            &vars
        ),
        Err(ParseError::UnexpectedToken(Token::Number("2".to_string())))
    );
    assert_eq!(
        ast_gen(
            vec![
                Token::Number("1".to_string()),
                Token::Op(Operator::Plus),
                Token::Op(Operator::Plus)
            ],
            &vars
        ),
        Err(ParseError::UnexpectedToken(Token::Op(Operator::Plus)))
    );
}

#[test]
fn incomplete_expression() {
    assert_eq!(parse(""), Err(ParseError::UnexpectedEOF));
    assert_eq!(parse("( )"), Err(ParseError::UnexpectedEOF));
    assert_eq!(parse("3 abs"), Err(ParseError::UnexpectedEOF));
    assert_eq!(parse("*3"), Err(ParseError::UnexpectedEOF));
    assert_eq!(parse("*3(4)"), Err(ParseError::UnexpectedEOF));
    assert_eq!(parse("-+3"), Err(ParseError::UnexpectedEOF));
}

#[test]
fn contextualized_lists_hold_one_operand_more_than_operators() {
    let vars = default_vars();
    for text in ["1", "1+2", "3pi3pi", "-2^2*(4)sin(1)", "2(3)(4)"] {
        let lists = ContextualizedTokens::from(&vars, &lex(text).unwrap()).unwrap();
        assert_eq!(lists.expressions.len(), lists.operators.len() + 1);
        assert!(lists.into_ast().is_ok());
    }
    let lists = ContextualizedTokens::from(&vars, &lex("2pi").unwrap()).unwrap();
    assert_eq!(lists.expressions, vec![num("2"), num(PI)]);
    assert_eq!(lists.operators, vec![Operator::Mult]);
}

#[test]
fn reduce_at_folds_one_operator() {
    let mut lists = ContextualizedTokens {
        expressions: vec![num("1"), neg(neg(num("2"))), num("3")],
        operators: vec![Operator::Plus, Operator::Exp],
    };
    lists.reduce_at(1, true);
    assert_eq!(
        lists.expressions,
        vec![
            num("1"),
            neg(neg(binary(Operator::Exp, num("2"), num("3"))))
        ]
    );
    assert_eq!(lists.operators, vec![Operator::Plus]);
    lists.reduce_at(1, false);
    assert_eq!(lists.operators, vec![Operator::Plus]);
    lists.reduce_at(0, false);
    assert_eq!(
        lists.expressions,
        vec![binary(
            Operator::Plus,
            num("1"),
            neg(neg(binary(Operator::Exp, num("2"), num("3"))))
        )]
    );
    assert_eq!(lists.operators, vec![]);
}

#[test]
fn into_ast_rejects_lists_of_the_wrong_lengths() {
    let lists = ContextualizedTokens {
        expressions: vec![num("1"), num("2")],
        operators: vec![],
    };
    assert_eq!(lists.into_ast(), Err(ParseError::UnexpectedEOF));
    let lists = ContextualizedTokens {
        expressions: vec![],
        operators: vec![],
    };
    assert_eq!(lists.into_ast(), Err(ParseError::UnexpectedEOF));
    let lists = ContextualizedTokens {
        expressions: vec![num("1")],
        operators: vec![Operator::Plus],
    };
    assert_eq!(lists.into_ast(), Err(ParseError::UnexpectedEOF));
}

#[test]
fn negate_and_non_neg_are_inverse() {
    assert_eq!(num("1").negate(0), num("1"));
    assert_eq!(num("1").negate(3), neg(neg(neg(num("1")))));
    assert_eq!(neg(neg(neg(num("1")))).non_neg(), (num("1"), 3));
    assert_eq!(num("1").non_neg(), (num("1"), 0));
    assert_eq!(
        paren(neg(num("1"))).non_neg(),
        (paren(neg(num("1"))), 0)
    );
    let (core, level) = neg(neg(paren(num("7")))).non_neg();
    assert_eq!(core.negate(level), neg(neg(paren(num("7")))));
}

#[test]
fn calls_are_checked_against_the_environment() {
    let vars = default_vars();
    assert_eq!(call("sin", num("1")).check_calls(&vars), Ok(()));
    assert_eq!(
        call("pi", num("1")).check_calls(&vars),
        Err(ParseError::NonFunction("pi".to_string()))
    );
    assert_eq!(
        call("nope", num("1")).check_calls(&vars),
        Err(ParseError::NonFunction("nope".to_string()))
    );
    assert_eq!(
        binary(
            Operator::Plus,
            neg(paren(call("a", call("b", num("1"))))),
            call("c", num("2"))
        )
        .check_calls(&vars),
        Err(ParseError::NonFunction("b".to_string()))
    );
    assert_eq!(
        binary(Operator::Plus, call("abs", num("1")), call("c", num("2"))).check_calls(&vars),
        Err(ParseError::NonFunction("c".to_string()))
    );
    for text in ["1", "sin(cos(2))", "-abs(3)^2", "3floor(2.4) + 2"] {
        assert_eq!(parse(text).unwrap().check_calls(&vars), Ok(()));
    }
}

#[test]
fn parse_error_messages() {
    assert_eq!(ParseError::UnexpectedEOF.message(), "Incomplete expression");
    assert_eq!(
        ParseError::UndefinedIdent("xyz".to_string()).message(),
        "Undefined variable \"xyz\""
    );
    assert_eq!(
        ParseError::NonFunction("pi".to_string()).message(),
        "\"pi\" is not a function"
    );
    assert_eq!(
        ParseError::UnexpectedToken(Token::Op(Operator::Minus)).message(),
        "Unexpected operator -"
    );
    assert_eq!(
        ParseError::UnexpectedToken(Token::Number("3".to_string())).message(),
        "Unexpected number 3"
    );
    assert_eq!(
        ParseError::UnexpectedToken(Token::Var("xyz".to_string())).message(),
        "Unexpected variable xyz"
    );
    assert_eq!(
        ParseError::UnexpectedToken(Token::Negation).message(),
        "Unexpected token '-'"
    );
    assert_eq!(
        ParseError::UnexpectedToken(Token::Parentheses(vec![])).message(),
        "Unexpected parentheses expression"
    );
}

#[test]
fn environment_lookup() {
    let vars = default_vars();
    assert_eq!(
        vars.get("pi"),
        Some(&VariableValue::Constant(PI.to_string()))
    );
    assert_eq!(
        vars.get("e"),
        Some(&VariableValue::Constant("2.718281828459045".to_string()))
    );
    let functions = [
        ("sin", Function::Sin),
        ("cos", Function::Cos),
        ("tan", Function::Tan),
        ("asin", Function::Asin),
        ("acos", Function::Acos),
        ("atan", Function::Atan),
        ("ceil", Function::Ceil),
        ("floor", Function::Floor),
        ("round", Function::Round),
        ("ln", Function::Ln),
        ("log", Function::Log),
        ("abs", Function::Abs),
        ("sqrt", Function::Sqrt),
    ];
    for (name, f) in functions {
        assert_eq!(vars.get(name), Some(&VariableValue::Function(f)));
    }
    assert_eq!(vars.get("x"), None);
    assert_eq!(vars.get(""), None);
    assert_eq!(vars.get("Pi"), None);
}

#[test]
fn later_bindings_override_earlier_ones() {
    let mut vars = VarMap::new();
    assert_eq!(vars.get("x"), None);
    vars.insert("x".to_string(), VariableValue::Constant("1".to_string()));
    vars.insert("y".to_string(), VariableValue::Function(Function::Abs));
    vars.insert("x".to_string(), VariableValue::Constant("2".to_string()));
    assert_eq!(
        vars.get("x"),
        Some(&VariableValue::Constant("2".to_string()))
    );
    assert_eq!(vars.get("y"), Some(&VariableValue::Function(Function::Abs)));
    assert_eq!(
        ast_gen(lex("2x y(x)").unwrap(), &vars),
        Ok(binary(
            Operator::Mult,
            binary(Operator::Mult, num("2"), num("2")),
            call("y", num("2"))
        ))
    );
}

#[test]
fn angle_modes() {
    assert!(AngleMode::Deg.is_deg());
    assert!(!AngleMode::Rad.is_deg());
    assert_eq!(AngleMode::Deg.to_string(), "Deg");
    assert_eq!(AngleMode::Rad.to_string(), "Rad");
    assert_eq!(!AngleMode::Deg, AngleMode::Rad);
    assert_eq!(!AngleMode::Rad, AngleMode::Deg);
    assert_eq!(!!AngleMode::Rad, AngleMode::Rad);
}

#[test]
fn angle_conversions_by_function() {
    let all = [
        Function::Sin,
        Function::Cos,
        Function::Tan,
        Function::Asin,
        Function::Acos,
        Function::Atan,
        Function::Ceil,
        Function::Floor,
        Function::Round,
        Function::Ln,
        Function::Log,
        Function::Abs,
        Function::Sqrt,
    ];
    for (i, f) in all.iter().enumerate() {
        assert_eq!(f.converts_argument(AngleMode::Deg), i < 3);
        assert_eq!(f.converts_result(AngleMode::Deg), 3 <= i && i < 6);
        assert!(!f.converts_argument(AngleMode::Rad));
        assert!(!f.converts_result(AngleMode::Rad));
    }
}
