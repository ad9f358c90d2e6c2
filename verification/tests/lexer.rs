use calculator::grammar::LexError;
use calculator::lex::lex;
use calculator::operator::Operator;
use calculator::text::{decimal_string, digit, from_chars, ident_char, space, to_chars};
use calculator::token::Token;

fn number(text: &str) -> Token {
    Token::Number(text.to_string())
}

fn var(name: &str) -> Token {
    Token::Var(name.to_string())
}

fn unexpected(character: char, position: usize) -> LexError {
    LexError::UnexpectedCharacter {
        character,
        position,
    }
}

#[test]
fn lex_literal_is_one_number() {
    for text in ["0", "42", "3.20", "8E3", "4E-4", "12.5E+30", "007", "1.0E0"] {
        assert_eq!(lex(text), Ok(vec![number(text)]));
    }
}

#[test]
fn lex_incomplete_numbers() {
    assert_eq!(lex("3."), Err(LexError::UnexpectedEOF));
    assert_eq!(lex("3E"), Err(LexError::UnexpectedEOF));
    assert_eq!(lex("3E-"), Err(LexError::UnexpectedEOF));
    assert_eq!(lex("3E+"), Err(LexError::UnexpectedEOF));
    assert_eq!(lex("3.x"), Err(unexpected('x', 2)));
    assert_eq!(lex("3.E5"), Err(unexpected('E', 2)));
    assert_eq!(lex("3E--5"), Err(unexpected('-', 3)));
    assert_eq!(lex("3E 5"), Err(unexpected(' ', 2)));
}

#[test]
fn lex_number_ends_where_its_grammar_ends() {
    assert_eq!(lex("3E5.2"), Err(unexpected('.', 3)));
    assert_eq!(lex("1.2.3"), Err(unexpected('.', 3)));
    assert_eq!(
        lex("3E5-2"),
        Ok(vec![number("3E5"), Token::Op(Operator::Minus), number("2")])
    );
    assert_eq!(
        lex("3E5E"),
        Err(LexError::UnexpectedCharacter {
            character: 'E',
            position: 3
        })
    );
    assert_eq!(lex("3 4"), Err(unexpected('4', 2)));
}

#[test]
fn lex_lowercase_e_is_an_identifier() {
    assert_eq!(lex("3e2"), Ok(vec![number("3"), var("e"), number("2")]));
}

#[test]
fn lex_operators() {
    assert_eq!(
        lex("1^2*3/4+5-6"),
        Ok(vec![
            number("1"),
            Token::Op(Operator::Exp),
            number("2"),
            Token::Op(Operator::Mult),
            number("3"),
            Token::Op(Operator::Div),
            number("4"),
            Token::Op(Operator::Plus),
            number("5"),
            Token::Op(Operator::Minus),
            number("6"),
        ])
    );
}

#[test]
fn lex_stacked_negation() {
    assert_eq!(
        lex("3*---2"),
        Ok(vec![
            number("3"),
            Token::Op(Operator::Mult),
            Token::Negation,
            Token::Negation,
            Token::Negation,
            number("2"),
        ])
    );
    assert_eq!(
        lex("--3"),
        Ok(vec![Token::Negation, Token::Negation, number("3")])
    );
    assert_eq!(
        lex("3-2"),
        Ok(vec![number("3"), Token::Op(Operator::Minus), number("2")])
    );
    assert_eq!(
        lex("(3)-2"),
        Ok(vec![
            Token::Parentheses(vec![number("3")]),
            Token::Op(Operator::Minus),
            number("2"),
        ])
    );
    assert_eq!(
        lex("pi-2"),
        Ok(vec![var("pi"), Token::Op(Operator::Minus), number("2")])
    );
}

#[test]
fn lex_two_operators_in_a_row() {
    assert_eq!(lex("3-*2"), Err(unexpected('*', 2)));
    assert_eq!(lex("3*-+2"), Err(unexpected('+', 3)));
    assert_eq!(lex("3++2"), Err(unexpected('+', 2)));
}

#[test]
fn lex_dangling_operator() {
    assert_eq!(lex("5 + 3 -"), Err(LexError::UnexpectedEOF));
    assert_eq!(lex("5 *"), Err(LexError::UnexpectedEOF));
    assert_eq!(lex("-"), Err(LexError::UnexpectedEOF));
    assert_eq!(lex("5 * -"), Err(LexError::UnexpectedEOF));
}

#[test]
fn lex_groups() {
    assert_eq!(
        lex("(1+(2))x"),
        Ok(vec![
            Token::Parentheses(vec![
                number("1"),
                Token::Op(Operator::Plus),
                Token::Parentheses(vec![number("2")]),
            ]),
            var("x"),
        ])
    );
    assert_eq!(lex("( )"), Ok(vec![Token::Parentheses(vec![])]));
}

#[test]
fn lex_group_errors() {
    assert_eq!(lex("3 + () / 2"), Err(LexError::EmptyParentheses));
    assert_eq!(lex("(3"), Err(LexError::UnexpectedEOF));
    assert_eq!(lex("3 + (4 + ((3)) * 3"), Err(LexError::UnexpectedEOF));
    assert_eq!(lex(")"), Err(unexpected(')', 0)));
    assert_eq!(lex("(3))"), Err(unexpected(')', 3)));
    assert_eq!(lex("(3+)"), Err(unexpected(')', 3)));
    assert_eq!(lex("1+(2*(3-))"), Err(unexpected(')', 8)));
}

#[test]
fn lex_group_that_is_never_closed_is_incomplete() {
    assert_eq!(lex("("), Err(LexError::UnexpectedEOF));
    assert_eq!(lex("2*("), Err(LexError::UnexpectedEOF));
    assert_eq!(lex("3 + ("), Err(LexError::UnexpectedEOF));
    assert_eq!(lex("( "), Err(LexError::UnexpectedEOF));
    assert_eq!(lex("(("), Err(LexError::UnexpectedEOF));
    assert_eq!(lex("(()"), Err(LexError::UnexpectedEOF));
    assert_eq!(lex("abs("), Err(LexError::UnexpectedEOF));
    assert_eq!(lex("(1)("), Err(LexError::UnexpectedEOF));
}

#[test]
fn lex_empty_group_has_both_parentheses() {
    assert_eq!(lex("()"), Err(LexError::EmptyParentheses));
    assert_eq!(lex("2*()"), Err(LexError::EmptyParentheses));
    assert_eq!(lex("(())"), Err(LexError::EmptyParentheses));
    assert_eq!(lex("(1 + ())"), Err(LexError::EmptyParentheses));
    assert_eq!(lex("()("), Err(LexError::EmptyParentheses));
    assert_eq!(lex("abs()"), Err(LexError::EmptyParentheses));
}

#[test]
fn lex_positions_count_from_the_start_of_the_whole_text() {
    assert_eq!(lex("3 .20"), Err(unexpected('.', 2)));
    assert_eq!(lex("(3 $)"), Err(unexpected('$', 3)));
    assert_eq!(lex("1+(2*(3 ?))"), Err(unexpected('?', 8)));
    assert_eq!(lex("12+(3.)"), Err(unexpected(')', 6)));
    assert_eq!(lex("12+(3.x)"), Err(unexpected('x', 6)));
}

#[test]
fn lex_identifiers() {
    assert_eq!(lex("a_b"), Ok(vec![var("a_b")]));
    assert_eq!(lex("_"), Ok(vec![var("_")]));
    assert_eq!(lex("ab3"), Ok(vec![var("ab"), number("3")]));
    assert_eq!(lex("aB"), Err(unexpected('B', 1)));
    assert_eq!(lex("E"), Err(unexpected('E', 0)));
}

#[test]
fn lex_whitespace_is_skipped() {
    assert_eq!(lex(""), Ok(vec![]));
    assert_eq!(lex(" \t\n"), Ok(vec![]));
    assert_eq!(
        lex("  1 +\u{a0}2\u{3000}"),
        Ok(vec![number("1"), Token::Op(Operator::Plus), number("2")])
    );
    assert_eq!(lex("1 \u{e9}"), Err(unexpected('\u{e9}', 2)));
}

#[test]
fn lex_error_messages() {
    assert_eq!(LexError::UnexpectedEOF.message(), "Incomplete expression");
    assert_eq!(LexError::EmptyParentheses.message(), "Empty parentheses");
    assert_eq!(
        unexpected('.', 2).message(),
        "Unexpected character '.' at index 2"
    );
    assert_eq!(
        unexpected('\u{e9}', 1234567890).message(),
        "Unexpected character '\u{e9}' at index 1234567890"
    );
    assert!(LexError::UnexpectedEOF.is_eof());
    assert!(!LexError::EmptyParentheses.is_eof());
    assert!(!unexpected('a', 0).is_eof());
}

#[test]
fn space_is_the_white_space_of_std() {
    let mut n: u32 = 0;
    while n <= 0x10FFFF {
        if let Some(c) = char::from_u32(n) {
            assert_eq!(space(c), c.is_whitespace());
            assert_eq!(digit(c), c.is_digit(10));
            assert_eq!(ident_char(c), c.is_ascii_lowercase() || c == '_');
        }
        n += 1;
    }
}

#[test]
fn decimal_string_is_the_numeral() {
    for n in [0usize, 1, 9, 10, 11, 99, 100, 12345, 1000000007, usize::MAX] {
        assert_eq!(decimal_string(n), format!("{}", n));
    }
}

#[test]
fn chars_and_strings_convert_both_ways() {
    let text = "3 + \u{e9}(x)";
    let chars = to_chars(text);
    assert_eq!(chars, vec!['3', ' ', '+', ' ', '\u{e9}', '(', 'x', ')']);
    assert_eq!(from_chars(&chars), text);
    assert_eq!(from_chars(&vec![]), "");
}

#[test]
fn token_predicates_and_descriptors() {
    let tokens = [
        number("3.5"),
        Token::Op(Operator::Minus),
        var("xyz"),
        Token::Parentheses(vec![number("1")]),
        Token::Negation,
    ];
    let words = [
        "number 3.5",
        "operator -",
        "variable xyz",
        "parentheses expression",
        "token '-'",
    ];
    for (i, token) in tokens.iter().enumerate() {
        assert_eq!(token.is_num(), i == 0);
        assert_eq!(token.is_op(), i == 1);
        assert_eq!(token.is_var(), i == 2);
        assert_eq!(token.is_paren(), i == 3);
        assert_eq!(token.is_neg(), i == 4);
        assert_eq!(token.get_descriptor(), words[i]);
        assert_eq!(&token.clone(), token);
    }
}

#[test]
fn operator_characters() {
    let all = [
        ('^', Operator::Exp),
        ('*', Operator::Mult),
        ('/', Operator::Div),
        ('+', Operator::Plus),
        ('-', Operator::Minus),
    ];
    for (c, op) in all {
        assert_eq!(Operator::from_char(c), Some(op));
        assert_eq!(op.get_char(), c);
        assert!(Operator::is_operator(c));
    }
    assert_eq!(Operator::from_char('x'), None);
    assert!(!Operator::is_operator('('));
    assert!(Operator::Exp.precedence().level() > Operator::Mult.precedence().level());
    assert_eq!(Operator::Mult.precedence(), Operator::Div.precedence());
    assert!(Operator::Div.precedence().level() > Operator::Plus.precedence().level());
    assert_eq!(Operator::Plus.precedence(), Operator::Minus.precedence());
}
