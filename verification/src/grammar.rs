//! The lexical grammar: which token starts at a position, where it ends,
//! and which token sequence a text denotes.

use vstd::prelude::*;
use crate::operator::{operator_of, Operator};
use crate::text::{is_digit, is_ident_char, is_space};
use crate::token::TokenView;

verus! {

/// Why a text has no token sequence.
#[derive(Clone, Copy, Debug, PartialEq, Eq, Structural)]
pub enum LexError {
    UnexpectedEOF,
    EmptyParentheses,
    UnexpectedCharacter { character: char, position: usize },
}

/// The end of the longest run of digits that starts at `i`.
pub open spec fn digits_end(s: Seq<char>, i: int) -> int
    decreases s.len() - i,
{
    if 0 <= i < s.len() && is_digit(s[i]) {
        digits_end(s, i + 1)
    } else {
        i
    }
}

/// The end of the longest run of identifier characters that starts at `i`.
pub open spec fn ident_end(s: Seq<char>, i: int) -> int
    decreases s.len() - i,
{
    if 0 <= i < s.len() && is_ident_char(s[i]) {
        ident_end(s, i + 1)
    } else {
        i
    }
}

/// A sign that may open the exponent of a number.
pub open spec fn is_sign(c: char) -> bool {
    c == '-' || c == '+'
}

/// Whether the number that starts at `i` has a point after its integer part.
pub open spec fn has_point(s: Seq<char>, i: int) -> bool {
    let p = digits_end(s, i);
    p < s.len() && s[p] == '.'
}

/// The end of the mantissa of the number that starts at `i`: its integer
/// part and, after a point, its fraction.
pub open spec fn mantissa_end(s: Seq<char>, i: int) -> int {
    if has_point(s, i) {
        digits_end(s, digits_end(s, i) + 1)
    } else {
        digits_end(s, i)
    }
}

/// Whether the mantissa of the number that starts at `i` ends in a digit.
pub open spec fn mantissa_closed(s: Seq<char>, i: int) -> bool {
    has_point(s, i) ==> mantissa_end(s, i) > digits_end(s, i) + 1
}

/// Whether the number that starts at `i` has an exponent marker. The marker
/// is taken only behind a mantissa that ends in a digit.
pub open spec fn has_exponent(s: Seq<char>, i: int) -> bool {
    let m = mantissa_end(s, i);
    mantissa_closed(s, i) && m < s.len() && s[m] == 'E'
}

/// Where the digits of the exponent start: behind the marker and one
/// optional sign.
pub open spec fn exponent_digits_start(s: Seq<char>, i: int) -> int {
    let m = mantissa_end(s, i);
    if m + 1 < s.len() && is_sign(s[m + 1]) {
        m + 2
    } else {
        m + 1
    }
}

/// The end of the number that starts with the digit at `i`.
pub open spec fn number_end(s: Seq<char>, i: int) -> int {
    if has_exponent(s, i) {
        digits_end(s, exponent_digits_start(s, i))
    } else {
        mantissa_end(s, i)
    }
}

/// Whether the number that starts at `i` is complete: its last segment holds
/// at least one digit.
pub open spec fn number_complete(s: Seq<char>, i: int) -> bool {
    if has_exponent(s, i) {
        number_end(s, i) > exponent_digits_start(s, i)
    } else {
        mantissa_closed(s, i)
    }
}

/// The index of the `)` that closes a group of which `depth` levels are open
/// at `i`, or the length of the text where there is none.
pub open spec fn group_close(s: Seq<char>, i: int, depth: nat) -> int
    decreases s.len() - i,
{
    if i < 0 || i >= s.len() {
        s.len() as int
    } else if s[i] == ')' {
        if depth <= 1 {
            i
        } else {
            group_close(s, i + 1, (depth - 1) as nat)
        }
    } else if s[i] == '(' {
        group_close(s, i + 1, depth + 1)
    } else {
        group_close(s, i + 1, depth)
    }
}

/// Whether the tokens, read back over trailing negation marks, end in an
/// operator.
pub open spec fn ends_in_operator(tokens: Seq<TokenView>) -> bool
    decreases tokens.len(),
{
    if tokens.len() == 0 {
        false
    } else if tokens.last() is Negation {
        ends_in_operator(tokens.drop_last())
    } else {
        tokens.last() is Op
    }
}

/// Whether the tokens are negation marks only.
pub open spec fn only_negations(tokens: Seq<TokenView>) -> bool {
    forall|k: int| 0 <= k < tokens.len() ==> tokens[k] is Negation
}

/// Whether the last token is a number.
pub open spec fn ends_in_number(tokens: Seq<TokenView>) -> bool {
    tokens.len() > 0 && tokens.last() is Number
}

/// Whether the tokens end in an operator or a negation mark that has no
/// operand yet.
pub open spec fn ends_open(tokens: Seq<TokenView>) -> bool {
    tokens.len() > 0 && (tokens.last() is Op || tokens.last() is Negation)
}

/// What a character starts, given the tokens before it.
pub enum Start {
    Skip,
    Negation,
    Number,
    Operator,
    Group,
    Identifier,
    Reject,
}

/// What the character `c` starts behind the tokens `before`.
///
/// A `-` is a negation mark where no operand stands before it: at the start,
/// behind an operator, or behind other negation marks of that kind.
pub open spec fn start_of(c: char, before: Seq<TokenView>) -> Start {
    if is_space(c) {
        Start::Skip
    } else if c == '-' && (ends_in_operator(before) || only_negations(before)) {
        Start::Negation
    } else if is_digit(c) && !ends_in_number(before) {
        Start::Number
    } else if operator_of(c).is_some() && !ends_in_operator(before) {
        Start::Operator
    } else if c == '(' {
        Start::Group
    } else if is_ident_char(c) {
        Start::Identifier
    } else {
        Start::Reject
    }
}

/// The position `base + i` as reported in an error.
pub open spec fn position_at(base: nat, i: int) -> usize {
    (base + i) as usize
}

/// The end of the token of the given kind that starts at `i`.
pub open spec fn token_end(kind: Start, s: Seq<char>, i: int) -> int {
    match kind {
        Start::Number => number_end(s, i),
        Start::Identifier => ident_end(s, i),
        Start::Group => {
            let close = group_close(s, i + 1, 1);
            if close < s.len() {
                close + 1
            } else {
                s.len() as int
            }
        },
        _ => i + 1,
    }
}

/// The error as the lexer reports it for a token that ends at `end`: where a
/// token is incomplete and a character follows it, that character is
/// unexpected.
pub open spec fn surfaced(e: LexError, s: Seq<char>, base: nat, end: int) -> LexError {
    if e is UnexpectedEOF && 0 <= end < s.len() {
        LexError::UnexpectedCharacter { character: s[end], position: position_at(base, end) }
    } else {
        e
    }
}

/// The token of the given kind that starts at `i`, where `s` starts at
/// offset `base` of the whole text.
///
/// A group whose closing parenthesis never comes is incomplete, whatever
/// stands behind its opening parenthesis. A group is empty only where the
/// closing parenthesis stands directly behind the opening one.
pub open spec fn token_value(kind: Start, s: Seq<char>, base: nat, i: int) -> Result<
    TokenView,
    LexError,
>
    decreases s.len(), 0nat,
{
    match kind {
        Start::Negation => Ok(TokenView::Negation),
        Start::Operator => match operator_of(s[i]) {
            Some(op) => Ok(TokenView::Op(op)),
            None => Err(LexError::UnexpectedEOF),
        },
        Start::Number => if number_complete(s, i) {
            Ok(TokenView::Number(s.subrange(i, number_end(s, i))))
        } else {
            Err(LexError::UnexpectedEOF)
        },
        Start::Identifier => Ok(TokenView::Var(s.subrange(i, ident_end(s, i)))),
        Start::Group => {
            let close = group_close(s, i + 1, 1);
            if i < 0 || close >= s.len() {
                Err(LexError::UnexpectedEOF)
            } else if close <= i + 1 {
                Err(LexError::EmptyParentheses)
            } else {
                match lex_from(s.subrange(i + 1, close), (base + i + 1) as nat, 0, Seq::empty()) {
                    Ok(inner) => Ok(TokenView::Parentheses(inner)),
                    Err(LexError::UnexpectedEOF) => Err(
                        LexError::UnexpectedCharacter {
                            character: ')',
                            position: position_at(base, close),
                        },
                    ),
                    Err(e) => Err(e),
                }
            }
        },
        _ => Err(LexError::UnexpectedEOF),
    }
}

/// The tokens of `s` from index `i` on, appended to `before`, where `s`
/// starts at offset `base` of the whole text.
pub open spec fn lex_from(s: Seq<char>, base: nat, i: int, before: Seq<TokenView>) -> Result<
    Seq<TokenView>,
    LexError,
>
    decreases s.len(), s.len() - i + 1,
{
    if i < 0 || i >= s.len() {
        if ends_open(before) {
            Err(LexError::UnexpectedEOF)
        } else {
            Ok(before)
        }
    } else {
        match start_of(s[i], before) {
            Start::Skip => lex_from(s, base, i + 1, before),
            Start::Reject => Err(
                LexError::UnexpectedCharacter { character: s[i], position: position_at(base, i) },
            ),
            kind => {
                let end = token_end(kind, s, i);
                match token_value(kind, s, base, i) {
                    Ok(t) => if i < end <= s.len() {
                        lex_from(s, base, end, before.push(t))
                    } else {
                        Err(LexError::UnexpectedEOF)
                    },
                    Err(e) => Err(surfaced(e, s, base, end)),
                }
            },
        }
    }
}

/// The token sequence that a text denotes, or the reason why it has none.
pub open spec fn lex_spec(s: Seq<char>) -> Result<Seq<TokenView>, LexError> {
    lex_from(s, 0, 0, Seq::empty())
}


/// A run of digits ends inside the text, holds digits only, and stops at
/// the first character that is none.
pub proof fn lemma_digits_end(s: Seq<char>, i: int)
    requires
        0 <= i <= s.len(),
    ensures
        i <= digits_end(s, i) <= s.len(),
        forall|k: int| i <= k < digits_end(s, i) ==> is_digit(#[trigger] s[k]),
        digits_end(s, i) < s.len() ==> !is_digit(s[digits_end(s, i)]),
    decreases s.len() - i,
{
    if i < s.len() && is_digit(s[i]) {
        lemma_digits_end(s, i + 1);
    }
}

/// A run of digits that is entered later ends at the same place.
pub proof fn lemma_digits_end_within(s: Seq<char>, i: int, j: int)
    requires
        0 <= i <= j <= s.len(),
        forall|k: int| i <= k < j ==> is_digit(#[trigger] s[k]),
    ensures
        digits_end(s, i) == digits_end(s, j),
    decreases j - i,
{
    if i < j {
        lemma_digits_end_within(s, i + 1, j);
    }
}

/// A run of identifier characters ends inside the text, holds identifier
/// characters only, and stops at the first character that is none.
pub proof fn lemma_ident_end(s: Seq<char>, i: int)
    requires
        0 <= i <= s.len(),
    ensures
        i <= ident_end(s, i) <= s.len(),
        forall|k: int| i <= k < ident_end(s, i) ==> is_ident_char(#[trigger] s[k]),
        ident_end(s, i) < s.len() ==> !is_ident_char(s[ident_end(s, i)]),
    decreases s.len() - i,
{
    if i < s.len() && is_ident_char(s[i]) {
        lemma_ident_end(s, i + 1);
    }
}

/// A run of identifier characters that is entered later ends at the same
/// place.
pub proof fn lemma_ident_end_within(s: Seq<char>, i: int, j: int)
    requires
        0 <= i <= j <= s.len(),
        forall|k: int| i <= k < j ==> is_ident_char(#[trigger] s[k]),
    ensures
        ident_end(s, i) == ident_end(s, j),
    decreases j - i,
{
    if i < j {
        lemma_ident_end_within(s, i + 1, j);
    }
}

/// The closing parenthesis of a group lies inside the text, where it is a
/// `)`, or the group ends with the text.
pub proof fn lemma_group_close_bounds(s: Seq<char>, i: int, depth: nat)
    requires
        0 <= i <= s.len(),
    ensures
        i <= group_close(s, i, depth) <= s.len(),
        group_close(s, i, depth) < s.len() ==> s[group_close(s, i, depth)] == ')',
    decreases s.len() - i,
{
    if i < s.len() {
        if s[i] == ')' {
            if depth > 1 {
                lemma_group_close_bounds(s, i + 1, (depth - 1) as nat);
            }
        } else if s[i] == '(' {
            lemma_group_close_bounds(s, i + 1, depth + 1);
        } else {
            lemma_group_close_bounds(s, i + 1, depth);
        }
    }
}

/// A number that starts with a digit ends behind it, inside the text.
pub proof fn lemma_number_end_bounds(s: Seq<char>, i: int)
    requires
        0 <= i < s.len(),
        is_digit(s[i]),
    ensures
        i < digits_end(s, i) <= mantissa_end(s, i) <= number_end(s, i) <= s.len(),
        has_exponent(s, i) ==> mantissa_end(s, i) < exponent_digits_start(s, i) <= number_end(s, i),
{
    lemma_digits_end(s, i);
    let p = digits_end(s, i);
    if has_point(s, i) {
        lemma_digits_end(s, p + 1);
    }
    if has_exponent(s, i) {
        lemma_digits_end(s, exponent_digits_start(s, i));
    }
}

/// A decimal literal: digits, then optionally a point and digits, then
/// optionally an `E`, an optional sign and digits.
pub open spec fn is_literal(s: Seq<char>) -> bool {
    &&& s.len() > 0
    &&& is_digit(s[0])
    &&& number_end(s, 0) == s.len()
    &&& number_complete(s, 0)
}

} // verus!
