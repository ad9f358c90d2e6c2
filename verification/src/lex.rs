//! The lexer: token builders that take a text character by character, and
//! the loop that drives them.

use vstd::prelude::*;
use vstd::string::*;
use crate::grammar::{
    digits_end, ends_in_operator, exponent_digits_start, group_close, has_exponent, has_point,
    ident_end, is_sign, lemma_digits_end, lemma_digits_end_within, lemma_group_close_bounds,
    lemma_ident_end, lemma_ident_end_within, lemma_number_end_bounds, lex_from, lex_spec,
    mantissa_end, number_complete, number_end, only_negations, start_of, token_end, token_value,
    LexError, Start,
};
use crate::operator::{operator_of, Operator};
use crate::text::{
    decimal, decimal_string, digit, from_chars, ident_char, is_digit, is_ident_char, push_char,
    space, to_chars,
};
use crate::token::{lemma_group_view, lemma_views_push, views, Token, TokenView};

verus! {

/// The message of a lexical error.
pub open spec fn lex_error_message(e: LexError) -> Seq<char> {
    match e {
        LexError::UnexpectedEOF => "Incomplete expression"@,
        LexError::EmptyParentheses => "Empty parentheses"@,
        LexError::UnexpectedCharacter { character, position } => "Unexpected character '"@.push(
            character,
        ) + "' at index "@ + decimal(position as nat),
    }
}

impl LexError {
    /// Whether the text ended where more was expected.
    pub fn is_eof(&self) -> (r: bool)
        ensures
            r == (*self is UnexpectedEOF),
    {
        match self {
            LexError::UnexpectedEOF => true,
            _ => false,
        }
    }

    /// The message that tells a user what is wrong with the text.
    pub fn message(&self) -> (r: String)
        ensures
            r@ == lex_error_message(*self),
    {
        match self {
            LexError::UnexpectedEOF => String::from_str("Incomplete expression"),
            LexError::EmptyParentheses => String::from_str("Empty parentheses"),
            LexError::UnexpectedCharacter { character, position } => {
                let mut r = String::from_str("Unexpected character '");
                push_char(&mut r, *character);
                r.append("' at index ");
                let index = decimal_string(*position);
                r.append(index.as_str());
                r
            },
        }
    }
}

/// Builds an operator token from a single operator character.
pub(crate) struct OperatorBuilder {
    pub(crate) inner: Option<Operator>,
}

impl OperatorBuilder {
    pub(crate) open spec fn accepts(&self, c: char) -> bool {
        self.inner is None && operator_of(c).is_some()
    }

    pub(crate) fn new() -> (b: Self)
        ensures
            b.inner is None,
    {
        OperatorBuilder { inner: None }
    }

    pub(crate) fn can_insert(&self, c: char) -> (r: bool)
        ensures
            r == self.accepts(c),
    {
        self.inner.is_none() && Operator::is_operator(c)
    }

    pub(crate) fn push(&mut self, c: char) -> (r: Result<(), ()>)
        ensures
            r is Ok <==> old(self).accepts(c),
            r is Ok ==> final(self).inner == operator_of(c),
            r is Err ==> *final(self) == *old(self),
    {
        match Operator::from_char(c) {
            Some(op) => {
                if self.inner.is_none() {
                    self.inner = Some(op);
                    Ok(())
                } else {
                    Err(())
                }
            },
            None => Err(()),
        }
    }

    pub(crate) fn into_token(self) -> (r: Result<Token, LexError>)
        ensures
            match self.inner {
                Some(op) => r is Ok && r->Ok_0@ == TokenView::Op(op),
                None => r == Err::<Token, LexError>(LexError::UnexpectedEOF),
            },
    {
        match self.inner {
            Some(op) => Ok(Token::Op(op)),
            None => Err(LexError::UnexpectedEOF),
        }
    }
}

/// Builds a negation mark from a single `-`.
pub(crate) struct NegationBuilder {
    pub(crate) complete: bool,
}

impl NegationBuilder {
    pub(crate) open spec fn accepts(&self, c: char) -> bool {
        !self.complete && c == '-'
    }

    pub(crate) fn new() -> (b: Self)
        ensures
            !b.complete,
    {
        NegationBuilder { complete: false }
    }

    pub(crate) fn can_insert(&self, c: char) -> (r: bool)
        ensures
            r == self.accepts(c),
    {
        !self.complete && c == '-'
    }

    pub(crate) fn push(&mut self, c: char) -> (r: Result<(), ()>)
        ensures
            r is Ok <==> old(self).accepts(c),
            r is Ok ==> final(self).complete,
            r is Err ==> *final(self) == *old(self),
    {
        if self.can_insert(c) {
            self.complete = true;
            Ok(())
        } else {
            Err(())
        }
    }

    pub(crate) fn into_token(self) -> (r: Result<Token, LexError>)
        ensures
            self.complete ==> r is Ok && r->Ok_0@ == TokenView::Negation,
            !self.complete ==> r == Err::<Token, LexError>(LexError::UnexpectedEOF),
    {
        if self.complete {
            Ok(Token::Negation)
        } else {
            Err(LexError::UnexpectedEOF)
        }
    }
}

/// Builds an identifier from a run of lowercase letters and underscores.
pub(crate) struct VariableBuilder {
    pub(crate) inner: Vec<char>,
}

impl VariableBuilder {
    pub(crate) open spec fn accepts(&self, c: char) -> bool {
        is_ident_char(c)
    }

    /// The builder has taken the characters of `s` from `start` up to `cur`.
    pub(crate) open spec fn tracks(&self, s: Seq<char>, start: int, cur: int) -> bool {
        &&& 0 <= start < cur <= ident_end(s, start)
        &&& ident_end(s, start) <= s.len()
        &&& self.inner@ == s.subrange(start, cur)
    }

    pub(crate) fn new() -> (b: Self)
        ensures
            b.inner@.len() == 0,
    {
        VariableBuilder { inner: Vec::new() }
    }

    pub(crate) fn can_insert(&self, c: char) -> (r: bool)
        ensures
            r == self.accepts(c),
    {
        ident_char(c)
    }

    pub(crate) fn push(&mut self, c: char) -> (r: Result<(), ()>)
        ensures
            r is Ok <==> old(self).accepts(c),
            r is Ok ==> final(self).inner@ == old(self).inner@.push(c),
            r is Err ==> *final(self) == *old(self),
    {
        if ident_char(c) {
            self.inner.push(c);
            Ok(())
        } else {
            Err(())
        }
    }

    pub(crate) fn into_token(self) -> (r: Result<Token, LexError>)
        ensures
            self.inner@.len() > 0 ==> r is Ok && r->Ok_0@ == TokenView::Var(self.inner@),
            self.inner@.len() == 0 ==> r == Err::<Token, LexError>(LexError::UnexpectedEOF),
    {
        if self.inner.len() > 0 {
            Ok(Token::Var(from_chars(&self.inner)))
        } else {
            Err(LexError::UnexpectedEOF)
        }
    }
}


/// Whether the characters hold a digit.
pub open spec fn holds_digit(s: Seq<char>) -> bool {
    exists|k: int| 0 <= k < s.len() && is_digit(#[trigger] s[k])
}

/// Whether the characters hold a digit.
fn any_digit(v: &Vec<char>) -> (r: bool)
    ensures
        r == holds_digit(v@),
{
    let mut i: usize = 0;
    while i < v.len()
        invariant
            i <= v.len(),
            forall|k: int| 0 <= k < i ==> !is_digit(#[trigger] v@[k]),
        decreases v.len() - i,
    {
        if digit(v[i]) {
            return true;
        }
        i += 1;
    }
    false
}

/// Builds a number from three segments: the integer part, the fraction
/// behind a point, and the exponent behind an `E`.
pub(crate) struct NumberBuilder {
    pub(crate) integer: Vec<char>,
    pub(crate) fraction: Vec<char>,
    pub(crate) exponent: Vec<char>,
    /// The segment that takes the next digit: 0, 1 or 2.
    pub(crate) ind: usize,
}

impl NumberBuilder {
    /// The segment that takes the next digit.
    pub(crate) open spec fn current(&self) -> Seq<char> {
        if self.ind == 0 {
            self.integer@
        } else if self.ind == 1 {
            self.fraction@
        } else {
            self.exponent@
        }
    }

    pub(crate) open spec fn accepts(&self, c: char) -> bool {
        ||| is_digit(c)
        ||| is_sign(c) && self.ind == 2 && self.exponent@.len() == 0
        ||| c == '.' && self.ind == 0 && self.integer@.len() > 0
        ||| c == 'E' && self.ind < 2 && holds_digit(self.current())
    }

    /// The builder after it has taken a character that it accepts.
    pub(crate) open spec fn follows(&self, before: Self, c: char) -> bool {
        if is_digit(c) || is_sign(c) {
            &&& self.ind == before.ind
            &&& self.current() == before.current().push(c)
            &&& before.ind != 0 ==> self.integer@ == before.integer@
            &&& before.ind != 1 ==> self.fraction@ == before.fraction@
            &&& before.ind < 2 ==> self.exponent@ == before.exponent@
        } else {
            &&& self.ind == (if c == '.' {
                1usize
            } else {
                2usize
            })
            &&& self.integer@ == before.integer@
            &&& self.fraction@ == before.fraction@
            &&& self.exponent@ == before.exponent@
        }
    }

    /// The text of the number: the segments that hold anything, each behind
    /// its marker.
    pub(crate) open spec fn text(&self) -> Seq<char> {
        self.integer@ + (if self.fraction@.len() > 0 {
            seq!['.'] + self.fraction@
        } else {
            Seq::empty()
        }) + (if self.exponent@.len() > 0 {
            seq!['E'] + self.exponent@
        } else {
            Seq::empty()
        })
    }

    /// The builder has taken the characters of `s` from `start` up to `cur`.
    pub(crate) open spec fn tracks(&self, s: Seq<char>, start: int, cur: int) -> bool {
        let p = digits_end(s, start);
        let m = mantissa_end(s, start);
        let d = exponent_digits_start(s, start);
        &&& 0 <= start < cur <= s.len()
        &&& is_digit(s[start])
        &&& self.ind <= 2
        &&& self.ind == 0 ==> {
            &&& cur <= p
            &&& self.integer@ == s.subrange(start, cur)
            &&& self.fraction@.len() == 0
            &&& self.exponent@.len() == 0
        }
        &&& self.ind == 1 ==> {
            &&& has_point(s, start)
            &&& p + 1 <= cur <= m
            &&& self.integer@ == s.subrange(start, p)
            &&& self.fraction@ == s.subrange(p + 1, cur)
            &&& self.exponent@.len() == 0
        }
        &&& self.ind == 2 ==> {
            &&& has_exponent(s, start)
            &&& m + 1 <= cur <= number_end(s, start)
            &&& self.integer@ == s.subrange(start, p)
            &&& self.fraction@ == (if has_point(s, start) {
                s.subrange(p + 1, m)
            } else {
                Seq::empty()
            })
            &&& self.exponent@ == s.subrange(m + 1, cur)
            &&& cur == m + 1 || d <= cur
        }
    }

    pub(crate) fn new() -> (b: Self)
        ensures
            b.ind == 0,
            b.integer@.len() == 0,
            b.fraction@.len() == 0,
            b.exponent@.len() == 0,
    {
        NumberBuilder { integer: Vec::new(), fraction: Vec::new(), exponent: Vec::new(), ind: 0 }
    }

    /// Whether the segment that takes the next digit holds one.
    fn current_holds_digit(&self) -> (r: bool)
        ensures
            r == holds_digit(self.current()),
    {
        if self.ind == 0 {
            any_digit(&self.integer)
        } else if self.ind == 1 {
            any_digit(&self.fraction)
        } else {
            any_digit(&self.exponent)
        }
    }

    pub(crate) fn can_insert(&self, c: char) -> (r: bool)
        ensures
            r == self.accepts(c),
    {
        digit(c) || (c == '-' && self.ind == 2 && self.exponent.len() == 0) || (c == '+'
            && self.ind == 2 && self.exponent.len() == 0) || (c == '.' && self.ind == 0
            && self.integer.len() > 0) || (c == 'E' && self.ind < 2 && self.current_holds_digit())
    }

    pub(crate) fn push(&mut self, c: char) -> (r: Result<(), ()>)
        requires
            old(self).ind <= 2,
        ensures
            r is Ok <==> old(self).accepts(c),
            r is Ok ==> final(self).follows(*old(self), c),
            r is Err ==> *final(self) == *old(self),
    {
        if digit(c) {
            if self.ind == 0 {
                self.integer.push(c);
            } else if self.ind == 1 {
                self.fraction.push(c);
            } else {
                self.exponent.push(c);
            }
            Ok(())
        } else if (c == '-' || c == '+') && self.ind == 2 && self.exponent.len() == 0 {
            self.exponent.push(c);
            Ok(())
        } else if c == '.' && self.ind == 0 && self.integer.len() > 0 {
            self.ind = 1;
            Ok(())
        } else if c == 'E' && self.ind < 2 && self.current_holds_digit() {
            self.ind = 2;
            Ok(())
        } else {
            Err(())
        }
    }

    /// The number, where the segment that was taken last holds a digit.
    pub(crate) fn into_token(self) -> (r: Result<Token, LexError>)
        ensures
            holds_digit(self.current()) ==> r is Ok && r->Ok_0@ == TokenView::Number(self.text()),
            !holds_digit(self.current()) ==> r == Err::<Token, LexError>(LexError::UnexpectedEOF),
    {
        if !self.current_holds_digit() {
            return Err(LexError::UnexpectedEOF);
        }
        let mut text = from_chars(&self.integer);
        if self.fraction.len() > 0 {
            push_char(&mut text, '.');
            let fraction = from_chars(&self.fraction);
            text.append(fraction.as_str());
        }
        if self.exponent.len() > 0 {
            push_char(&mut text, 'E');
            let exponent = from_chars(&self.exponent);
            text.append(exponent.as_str());
        }
        assert(text@ =~= self.text());
        Ok(Token::Number(text))
    }
}

/// A builder that has taken the first digit of a number tracks the text.
pub(crate) proof fn lemma_number_start(b: NumberBuilder, s: Seq<char>, start: int)
    requires
        0 <= start < s.len(),
        is_digit(s[start]),
        b.ind == 0,
        b.integer@ == Seq::<char>::empty().push(s[start]),
        b.fraction@.len() == 0,
        b.exponent@.len() == 0,
    ensures
        b.tracks(s, start, start + 1),
{
    lemma_digits_end(s, start + 1);
    assert(b.integer@ =~= s.subrange(start, start + 1));
}

/// A builder that tracks the text and takes the next character tracks the
/// text one character further.
pub(crate) proof fn lemma_number_step(
    b: NumberBuilder,
    after: NumberBuilder,
    s: Seq<char>,
    start: int,
    cur: int,
)
    requires
        b.tracks(s, start, cur),
        cur < s.len(),
        b.accepts(s[cur]),
        after.follows(b, s[cur]),
    ensures
        after.tracks(s, start, cur + 1),
{
    let c = s[cur];
    let p = digits_end(s, start);
    let m = mantissa_end(s, start);
    let d = exponent_digits_start(s, start);
    lemma_number_end_bounds(s, start);
    lemma_digits_end(s, start);
    if b.ind == 0 {
        if is_digit(c) {
            assert(after.integer@ =~= s.subrange(start, cur + 1));
        } else {
            assert(cur == p);
            if c == '.' {
                lemma_digits_end(s, p + 1);
                assert(after.fraction@ =~= s.subrange(p + 1, cur + 1));
                } else {
                assert(c == 'E');
                lemma_digits_end(s, d);
                assert(after.fraction@ =~= Seq::empty());
                assert(after.exponent@ =~= s.subrange(m + 1, cur + 1));
            }
        }
    } else if b.ind == 1 {
        lemma_digits_end(s, p + 1);
        if is_digit(c) {
            assert(after.fraction@ =~= s.subrange(p + 1, cur + 1));
        } else {
            assert(c == 'E');
            assert(cur == m);
            let k = choose|k: int| 0 <= k < b.fraction@.len() && is_digit(#[trigger] b.fraction@[k]);
            assert(b.fraction@.len() > 0);
            lemma_digits_end(s, d);
            assert(after.exponent@ =~= s.subrange(m + 1, cur + 1));
        }
    } else {
        lemma_digits_end(s, d);
        assert(after.exponent@ =~= s.subrange(m + 1, cur + 1));
        if is_digit(c) {
            if cur == m + 1 {
                assert(d == m + 1);
            }
            lemma_number_digits(b, s, start, cur);
            lemma_digits_end_within(s, d, cur);
            lemma_digits_end(s, cur);
        } else {
            assert(cur == m + 1);
        }
    }
}

/// Behind the start of the exponent's digits a tracking builder has taken
/// digits only.
pub(crate) proof fn lemma_number_digits(b: NumberBuilder, s: Seq<char>, start: int, cur: int)
    requires
        b.tracks(s, start, cur),
        b.ind == 2,
        exponent_digits_start(s, start) <= cur,
    ensures
        forall|k: int| exponent_digits_start(s, start) <= k < cur ==> is_digit(#[trigger] s[k]),
{
    lemma_number_end_bounds(s, start);
    lemma_digits_end(s, exponent_digits_start(s, start));
}

/// Where a tracking builder takes no further character, the number ends,
/// and the builder holds its text.
pub(crate) proof fn lemma_number_done(b: NumberBuilder, s: Seq<char>, start: int, cur: int)
    requires
        b.tracks(s, start, cur),
        cur < s.len() ==> !b.accepts(s[cur]),
    ensures
        cur == number_end(s, start),
        holds_digit(b.current()) == number_complete(s, start),
        holds_digit(b.current()) ==> b.text() == s.subrange(start, cur),
{
    let p = digits_end(s, start);
    let m = mantissa_end(s, start);
    let d = exponent_digits_start(s, start);
    lemma_number_end_bounds(s, start);
    lemma_digits_end(s, start);
    if b.ind == 0 {
        assert(is_digit(b.integer@[0]));
        assert(cur == p);
        assert(b.text() =~= s.subrange(start, cur));
    } else if b.ind == 1 {
        lemma_digits_end(s, p + 1);
        assert(cur == m);
        if m > p + 1 {
            assert(is_digit(b.fraction@[0]));
            assert(b.text() =~= s.subrange(start, cur));
        }
    } else {
        lemma_digits_end(s, d);
        if has_point(s, start) {
            lemma_digits_end(s, p + 1);
        }
        if cur == m + 1 {
            assert(d == m + 1);
        } else {
            lemma_digits_end_within(s, d, cur);
            lemma_digits_end(s, cur);
        }
        assert(cur == number_end(s, start));
        if cur > d {
            assert(is_digit(b.exponent@[d - (m + 1)]));
            assert(b.text() =~= s.subrange(start, cur));
        } else {
            assert forall|k: int| 0 <= k < b.exponent@.len() implies !is_digit(
                #[trigger] b.exponent@[k],
            ) by {
                assert(b.exponent@[k] == s[m + 1 + k]);
            }
        }
    }
}


/// The value of a token or the error in its place.
pub open spec fn token_result_view(r: Result<Token, LexError>) -> Result<TokenView, LexError> {
    match r {
        Ok(t) => Ok(t@),
        Err(e) => Err(e),
    }
}

/// The values of a token sequence or the error in its place.
pub open spec fn tokens_result_view(r: Result<Vec<Token>, LexError>) -> Result<
    Seq<TokenView>,
    LexError,
> {
    match r {
        Ok(tokens) => Ok(views(tokens@)),
        Err(e) => Err(e),
    }
}

/// Builds a group from the text between a `(` and the `)` that matches it.
pub(crate) struct ParenthesesBuilder {
    /// The text between the parentheses.
    pub(crate) inner: Vec<char>,
    /// How many parentheses are open.
    pub(crate) level: usize,
    pub(crate) complete: bool,
    /// The offset of the opening parenthesis in the whole text.
    pub(crate) start: usize,
}

impl ParenthesesBuilder {
    pub(crate) open spec fn accepts(&self, c: char) -> bool {
        !self.complete && (c != ')' || self.level > 0)
    }

    /// The builder after it has taken a character that it accepts.
    pub(crate) open spec fn follows(&self, before: Self, c: char) -> bool {
        &&& self.start == before.start
        &&& self.level == (if c == ')' {
            before.level - 1
        } else if c == '(' {
            before.level + 1
        } else {
            before.level as int
        })
        &&& self.complete == (if c == ')' || c == '(' {
            self.level == 0
        } else {
            before.complete
        })
        &&& self.inner@ == (if (c == ')' && self.level == 0) || (c == '(' && before.level == 0) {
            before.inner@
        } else {
            before.inner@.push(c)
        })
    }

    /// The token that the builder gives, or the error in its place.
    pub(crate) open spec fn outcome(&self) -> Result<TokenView, LexError> {
        if !self.complete {
            Err(LexError::UnexpectedEOF)
        } else if self.inner@.len() == 0 {
            Err(LexError::EmptyParentheses)
        } else {
            match lex_from(self.inner@, (self.start + 1) as nat, 0, Seq::empty()) {
                Ok(inner) => Ok(TokenView::Parentheses(inner)),
                Err(LexError::UnexpectedEOF) => Err(
                    LexError::UnexpectedCharacter {
                        character: ')',
                        position: (self.inner@.len() + self.start + 1) as usize,
                    },
                ),
                Err(e) => Err(e),
            }
        }
    }

    /// The builder has taken the characters of `s` from `start` up to `cur`,
    /// where `s` starts at offset `base` of the whole text.
    pub(crate) open spec fn tracks(&self, s: Seq<char>, base: nat, start: int, cur: int) -> bool {
        let close = group_close(s, start + 1, 1);
        &&& 0 <= start < cur <= s.len()
        &&& base + s.len() <= usize::MAX
        &&& s[start] == '('
        &&& self.start == base + start
        &&& !self.complete ==> {
            &&& 1 <= self.level <= cur - start
            &&& self.inner@ == s.subrange(start + 1, cur)
            &&& group_close(s, cur, self.level as nat) == close
        }
        &&& self.complete ==> {
            &&& self.level == 0
            &&& close < s.len()
            &&& cur == close + 1
            &&& self.inner@ == s.subrange(start + 1, close)
        }
    }

    pub(crate) fn new(start: usize) -> (b: Self)
        ensures
            b.inner@.len() == 0,
            b.level == 0,
            !b.complete,
            b.start == start,
    {
        ParenthesesBuilder { inner: Vec::new(), level: 0, complete: false, start }
    }

    pub(crate) fn can_insert(&self, c: char) -> (r: bool)
        ensures
            r == self.accepts(c),
    {
        !self.complete && (c != ')' || self.level > 0)
    }

    pub(crate) fn push(&mut self, c: char) -> (r: Result<(), ()>)
        requires
            old(self).level < usize::MAX,
        ensures
            r is Ok <==> old(self).accepts(c),
            r is Ok ==> final(self).follows(*old(self), c),
            r is Err ==> *final(self) == *old(self),
    {
        if self.complete {
            return Err(());
        }
        if c == '(' || c == ')' {
            if c == ')' {
                if self.level == 0 {
                    return Err(());
                }
                self.level = self.level - 1;
            }
            if self.level > 0 {
                self.inner.push(c);
            }
            if c == '(' {
                self.level = self.level + 1;
            }
            self.complete = self.level == 0;
            Ok(())
        } else {
            self.inner.push(c);
            Ok(())
        }
    }
}

/// A builder that has taken the opening parenthesis tracks the text.
pub(crate) proof fn lemma_group_start(b: ParenthesesBuilder, s: Seq<char>, base: nat, start: int)
    requires
        0 <= start < s.len(),
        base + s.len() <= usize::MAX,
        s[start] == '(',
        b.start == base + start,
        b.level == 1,
        !b.complete,
        b.inner@.len() == 0,
    ensures
        b.tracks(s, base, start, start + 1),
{
    assert(b.inner@ =~= s.subrange(start + 1, start + 1));
}

/// A builder that tracks the text and takes the next character tracks the
/// text one character further.
pub(crate) proof fn lemma_group_step(
    b: ParenthesesBuilder,
    after: ParenthesesBuilder,
    s: Seq<char>,
    base: nat,
    start: int,
    cur: int,
)
    requires
        b.tracks(s, base, start, cur),
        cur < s.len(),
        b.accepts(s[cur]),
        after.follows(b, s[cur]),
    ensures
        after.tracks(s, base, start, cur + 1),
{
    let c = s[cur];
    if after.complete {
        assert(after.inner@ =~= s.subrange(start + 1, cur));
    } else {
        assert(after.inner@ =~= s.subrange(start + 1, cur + 1));
    }
}

/// Where a tracking builder takes no further character, the group ends,
/// and the builder gives its token.
pub(crate) proof fn lemma_group_done(
    b: ParenthesesBuilder,
    s: Seq<char>,
    base: nat,
    start: int,
    cur: int,
)
    requires
        b.tracks(s, base, start, cur),
        cur < s.len() ==> !b.accepts(s[cur]),
    ensures
        cur == token_end(Start::Group, s, start),
        b.outcome() == token_value(Start::Group, s, base, start),
        b.start + 1 + b.inner@.len() <= usize::MAX,
        b.inner@.len() < s.len(),
{
    lemma_group_close_bounds(s, start + 1, 1);
}


/// A token under construction: one builder for each kind of token.
pub(crate) enum TokenBuilder {
    Operator(OperatorBuilder),
    Negation(NegationBuilder),
    Number(NumberBuilder),
    Parentheses(ParenthesesBuilder),
    Variable(VariableBuilder),
}

impl TokenBuilder {
    /// The kind of token that the builder builds.
    pub(crate) open spec fn kind(&self) -> Start {
        match self {
            TokenBuilder::Operator(_) => Start::Operator,
            TokenBuilder::Negation(_) => Start::Negation,
            TokenBuilder::Number(_) => Start::Number,
            TokenBuilder::Parentheses(_) => Start::Group,
            TokenBuilder::Variable(_) => Start::Identifier,
        }
    }

    pub(crate) open spec fn accepts(&self, c: char) -> bool {
        match self {
            TokenBuilder::Operator(b) => b.accepts(c),
            TokenBuilder::Negation(b) => b.accepts(c),
            TokenBuilder::Number(b) => b.accepts(c),
            TokenBuilder::Parentheses(b) => b.accepts(c),
            TokenBuilder::Variable(b) => b.accepts(c),
        }
    }

    /// The builder can take a character without an overflow.
    pub(crate) open spec fn ready(&self) -> bool {
        match self {
            TokenBuilder::Number(b) => b.ind <= 2,
            TokenBuilder::Parentheses(b) => b.level < usize::MAX,
            _ => true,
        }
    }

    /// The builder after it has taken a character that it accepts.
    pub(crate) open spec fn follows(&self, before: Self, c: char) -> bool {
        match (self, before) {
            (TokenBuilder::Operator(b), TokenBuilder::Operator(_)) => b.inner == operator_of(c),
            (TokenBuilder::Negation(b), TokenBuilder::Negation(_)) => b.complete,
            (TokenBuilder::Number(b), TokenBuilder::Number(a)) => b.follows(a, c),
            (TokenBuilder::Parentheses(b), TokenBuilder::Parentheses(a)) => b.follows(a, c),
            (TokenBuilder::Variable(b), TokenBuilder::Variable(a)) => b.inner@ == a.inner@.push(c),
            _ => false,
        }
    }

    /// The builder holds nothing yet; a group would start at offset `start`
    /// of the whole text.
    pub(crate) open spec fn fresh(&self, start: usize) -> bool {
        match self {
            TokenBuilder::Operator(b) => b.inner is None,
            TokenBuilder::Negation(b) => !b.complete,
            TokenBuilder::Number(b) => b.ind == 0 && b.integer@.len() == 0 && b.fraction@.len()
                == 0 && b.exponent@.len() == 0,
            TokenBuilder::Parentheses(b) => b.inner@.len() == 0 && b.level == 0 && !b.complete
                && b.start == start,
            TokenBuilder::Variable(b) => b.inner@.len() == 0,
        }
    }

    /// The builder has taken the characters of `s` from `start` up to `cur`,
    /// where `s` starts at offset `base` of the whole text.
    pub(crate) open spec fn tracks(&self, s: Seq<char>, base: nat, start: int, cur: int) -> bool {
        match self {
            TokenBuilder::Operator(b) => 0 <= start < s.len() && cur == start + 1 && b.inner
                is Some && b.inner == operator_of(s[start]),
            TokenBuilder::Negation(b) => 0 <= start < s.len() && cur == start + 1 && b.complete,
            TokenBuilder::Number(b) => b.tracks(s, start, cur),
            TokenBuilder::Parentheses(b) => b.tracks(s, base, start, cur),
            TokenBuilder::Variable(b) => b.tracks(s, start, cur),
        }
    }

    /// The token that the builder gives, or the error in its place.
    pub(crate) open spec fn outcome(&self) -> Result<TokenView, LexError> {
        match self {
            TokenBuilder::Operator(b) => match b.inner {
                Some(op) => Ok(TokenView::Op(op)),
                None => Err(LexError::UnexpectedEOF),
            },
            TokenBuilder::Negation(b) => if b.complete {
                Ok(TokenView::Negation)
            } else {
                Err(LexError::UnexpectedEOF)
            },
            TokenBuilder::Number(b) => if holds_digit(b.current()) {
                Ok(TokenView::Number(b.text()))
            } else {
                Err(LexError::UnexpectedEOF)
            },
            TokenBuilder::Parentheses(b) => b.outcome(),
            TokenBuilder::Variable(b) => if b.inner@.len() > 0 {
                Ok(TokenView::Var(b.inner@))
            } else {
                Err(LexError::UnexpectedEOF)
            },
        }
    }

    /// The length of the text that the builder hands on to be lexed in turn.
    pub(crate) open spec fn weight(&self) -> nat {
        match self {
            TokenBuilder::Parentheses(b) => b.inner@.len(),
            _ => 0,
        }
    }

    /// A fresh builder for the kind of token that a character starts.
    pub(crate) fn new(kind: &Start, start: usize) -> (b: Self)
        requires
            kind !is Skip,
            kind !is Reject,
        ensures
            b.kind() == *kind,
            b.fresh(start),
    {
        match kind {
            Start::Negation => TokenBuilder::Negation(NegationBuilder::new()),
            Start::Number => TokenBuilder::Number(NumberBuilder::new()),
            Start::Operator => TokenBuilder::Operator(OperatorBuilder::new()),
            Start::Group => TokenBuilder::Parentheses(ParenthesesBuilder::new(start)),
            _ => TokenBuilder::Variable(VariableBuilder::new()),
        }
    }

    /// Whether the token goes on with the character `c`.
    pub(crate) fn can_insert(&self, c: char) -> (r: bool)
        ensures
            r == self.accepts(c),
    {
        match self {
            TokenBuilder::Operator(b) => b.can_insert(c),
            TokenBuilder::Negation(b) => b.can_insert(c),
            TokenBuilder::Number(b) => b.can_insert(c),
            TokenBuilder::Parentheses(b) => b.can_insert(c),
            TokenBuilder::Variable(b) => b.can_insert(c),
        }
    }

    /// Takes the character `c` into the token, where the token goes on
    /// with it.
    pub(crate) fn push(&mut self, c: char) -> (r: Result<(), ()>)
        requires
            old(self).ready(),
        ensures
            r is Ok <==> old(self).accepts(c),
            r is Ok ==> final(self).follows(*old(self), c),
            r is Err ==> *final(self) == *old(self),
    {
        match self {
            TokenBuilder::Operator(b) => b.push(c),
            TokenBuilder::Negation(b) => b.push(c),
            TokenBuilder::Number(b) => b.push(c),
            TokenBuilder::Parentheses(b) => b.push(c),
            TokenBuilder::Variable(b) => b.push(c),
        }
    }

    /// The token that has been built. A group is lexed in turn.
    pub(crate) fn into_token(self) -> (r: Result<Token, LexError>)
        requires
            self matches TokenBuilder::Parentheses(b) ==> b.start + 1 + b.inner@.len()
                <= usize::MAX,
        ensures
            token_result_view(r) == self.outcome(),
        decreases self.weight(), 4nat,
    {
        match self {
            TokenBuilder::Operator(b) => b.into_token(),
            TokenBuilder::Negation(b) => b.into_token(),
            TokenBuilder::Number(b) => b.into_token(),
            TokenBuilder::Parentheses(b) => b.into_token(),
            TokenBuilder::Variable(b) => b.into_token(),
        }
    }
}

impl ParenthesesBuilder {
    /// The group of the tokens between the parentheses. A group that was
    /// never closed is incomplete, whatever it holds; a closed group that
    /// holds nothing is empty; and where the text of a closed group is
    /// incomplete, its closing parenthesis is unexpected.
    pub(crate) fn into_token(self) -> (r: Result<Token, LexError>)
        requires
            self.start + 1 + self.inner@.len() <= usize::MAX,
        ensures
            token_result_view(r) == self.outcome(),
        decreases self.inner@.len(), 3nat,
    {
        if !self.complete {
            Err(LexError::UnexpectedEOF)
        } else if self.inner.len() == 0 {
            Err(LexError::EmptyParentheses)
        } else {
            match lex_ind(&self.inner, self.start + 1) {
                Ok(tokens) => {
                    proof {
                        lemma_group_view(tokens);
                    }
                    Ok(Token::Parentheses(tokens))
                },
                Err(e) => {
                    if e.is_eof() {
                        Err(
                            LexError::UnexpectedCharacter {
                                character: ')',
                                position: self.inner.len() + self.start + 1,
                            },
                        )
                    } else {
                        Err(e)
                    }
                },
            }
        }
    }
}

/// A fresh builder that has taken the character that starts its token
/// tracks the text.
pub(crate) proof fn lemma_builder_start(
    fresh: TokenBuilder,
    b: TokenBuilder,
    s: Seq<char>,
    base: nat,
    start: int,
)
    requires
        0 <= start < s.len(),
        base + s.len() <= usize::MAX,
        fresh.fresh((base + start) as usize),
        fresh.accepts(s[start]),
        b.follows(fresh, s[start]),
        fresh.kind() == Start::Group ==> s[start] == '(',
    ensures
        b.tracks(s, base, start, start + 1),
        b.kind() == fresh.kind(),
{
    match (fresh, b) {
        (TokenBuilder::Number(f), TokenBuilder::Number(n)) => {
            assert(f.integer@ =~= Seq::empty());
            lemma_number_start(n, s, start);
        },
        (TokenBuilder::Parentheses(f), TokenBuilder::Parentheses(p)) => {
            assert(p.inner@ =~= Seq::empty());
            lemma_group_start(p, s, base, start);
        },
        (TokenBuilder::Variable(f), TokenBuilder::Variable(v)) => {
            lemma_ident_end(s, start + 1);
            assert(v.inner@ =~= s.subrange(start, start + 1));
        },
        _ => {},
    }
}

/// A builder that tracks the text and takes the next character tracks the
/// text one character further.
pub(crate) proof fn lemma_builder_step(
    b: TokenBuilder,
    after: TokenBuilder,
    s: Seq<char>,
    base: nat,
    start: int,
    cur: int,
)
    requires
        b.tracks(s, base, start, cur),
        cur < s.len(),
        b.accepts(s[cur]),
        after.follows(b, s[cur]),
    ensures
        after.tracks(s, base, start, cur + 1),
        after.kind() == b.kind(),
{
    match (b, after) {
        (TokenBuilder::Number(x), TokenBuilder::Number(y)) => {
            lemma_number_step(x, y, s, start, cur);
        },
        (TokenBuilder::Parentheses(x), TokenBuilder::Parentheses(y)) => {
            lemma_group_step(x, y, s, base, start, cur);
        },
        (TokenBuilder::Variable(x), TokenBuilder::Variable(y)) => {
            lemma_ident_end(s, start);
            assert(y.inner@ =~= s.subrange(start, cur + 1));
        },
        _ => {},
    }
}

/// A tracking builder can take a further character without an overflow.
pub(crate) proof fn lemma_builder_ready(
    b: TokenBuilder,
    s: Seq<char>,
    base: nat,
    start: int,
    cur: int,
)
    requires
        b.tracks(s, base, start, cur),
        cur < s.len(),
    ensures
        b.ready(),
{
}

/// Where a tracking builder takes no further character, its token ends,
/// and the builder gives the token of the grammar.
pub(crate) proof fn lemma_builder_done(
    b: TokenBuilder,
    s: Seq<char>,
    base: nat,
    start: int,
    cur: int,
)
    requires
        b.tracks(s, base, start, cur),
        cur < s.len() ==> !b.accepts(s[cur]),
    ensures
        cur == token_end(b.kind(), s, start),
        b.outcome() == token_value(b.kind(), s, base, start),
        b.weight() < s.len(),
        b matches TokenBuilder::Parentheses(p) ==> p.start + 1 + p.inner@.len() <= usize::MAX,
{
    match b {
        TokenBuilder::Number(x) => {
            lemma_number_done(x, s, start, cur);
        },
        TokenBuilder::Parentheses(x) => {
            lemma_group_done(x, s, base, start, cur);
        },
        TokenBuilder::Variable(x) => {
            lemma_ident_end(s, start);
            lemma_ident_end_within(s, start, cur);
            lemma_ident_end(s, cur);
        },
        _ => {},
    }
}

/// Whether the tokens end in an operator behind which only negation marks
/// stand, and whether they are negation marks only.
fn trailing(tokens: &Vec<Token>) -> (r: (bool, bool))
    ensures
        r.0 == ends_in_operator(views(tokens@)),
        r.1 == only_negations(views(tokens@)),
{
    let ghost all = views(tokens@);
    let mut k: usize = tokens.len();
    assert(all.subrange(0, k as int) =~= all);
    while k > 0 && tokens[k - 1].is_neg()
        invariant
            k <= tokens.len(),
            all == views(tokens@),
            forall|j: int| k <= j < tokens.len() ==> all[j] is Negation,
            ends_in_operator(all) == ends_in_operator(all.subrange(0, k as int)),
        decreases k,
    {
        assert(all.subrange(0, k as int).drop_last() =~= all.subrange(0, k - 1));
        k -= 1;
    }
    if k == 0 {
        (false, true)
    } else {
        assert(all.subrange(0, k as int).last() == all[k - 1]);
        assert(!(all[k - 1] is Negation));
        (tokens[k - 1].is_op(), false)
    }
}

/// What the character `c` starts behind the tokens.
fn start_kind(c: char, tokens: &Vec<Token>) -> (r: Start)
    ensures
        r == start_of(c, views(tokens@)),
{
    let (after_operator, negations) = trailing(tokens);
    let after_number = tokens.len() > 0 && tokens[tokens.len() - 1].is_num();
    if space(c) {
        Start::Skip
    } else if c == '-' && (after_operator || negations) {
        Start::Negation
    } else if digit(c) && !after_number {
        Start::Number
    } else if Operator::is_operator(c) && !after_operator {
        Start::Operator
    } else if c == '(' {
        Start::Group
    } else if ident_char(c) {
        Start::Identifier
    } else {
        Start::Reject
    }
}

/// The tokens of the text `s`, which starts at offset `ind` of the whole
/// text.
pub(crate) fn lex_ind(s: &Vec<char>, ind: usize) -> (r: Result<Vec<Token>, LexError>)
    requires
        ind + s.len() <= usize::MAX,
    ensures
        tokens_result_view(r) == lex_from(s@, ind as nat, 0, Seq::empty()),
    decreases s@.len(), 2nat,
{
    let mut tokens: Vec<Token> = Vec::new();
    let mut i: usize = 0;
    assert(views(tokens@) =~= Seq::empty());
    while i < s.len()
        invariant
            i <= s.len(),
            ind + s.len() <= usize::MAX,
            lex_from(s@, ind as nat, i as int, views(tokens@)) == lex_from(
                s@,
                ind as nat,
                0,
                Seq::empty(),
            ),
        decreases s.len() - i,
    {
        let c = s[i];
        let kind = start_kind(c, &tokens);
        match kind {
            Start::Skip => {
                i += 1;
            },
            Start::Reject => {
                return Err(LexError::UnexpectedCharacter { character: c, position: ind + i });
            },
            _ => {
                let mut item = TokenBuilder::new(&kind, ind + i);
                let ghost fresh = item;
                match item.push(c) {
                    Ok(()) => {},
                    Err(()) => {
                        return Err(
                            LexError::UnexpectedCharacter { character: c, position: ind + i },
                        );
                    },
                }
                proof {
                    lemma_builder_start(fresh, item, s@, ind as nat, i as int);
                }
                let mut j: usize = i + 1;
                loop
                    invariant
                        i < j <= s.len(),
                        ind + s.len() <= usize::MAX,
                        item.tracks(s@, ind as nat, i as int, j as int),
                        item.kind() == kind,
                    ensures
                        j < s.len() ==> !item.accepts(s@[j as int]),
                    decreases s.len() - j,
                {
                    if j >= s.len() || !item.can_insert(s[j]) {
                        break ;
                    }
                    let ghost before = item;
                    proof {
                        lemma_builder_ready(item, s@, ind as nat, i as int, j as int);
                    }
                    let pushed = item.push(s[j]);
                    proof {
                        lemma_builder_step(before, item, s@, ind as nat, i as int, j as int);
                    }
                    j += 1;
                }
                proof {
                    lemma_builder_done(item, s@, ind as nat, i as int, j as int);
                }
                match item.into_token() {
                    Ok(token) => {
                        proof {
                            lemma_views_push(tokens@, token);
                        }
                        tokens.push(token);
                    },
                    Err(e) => {
                        if e.is_eof() && j < s.len() {
                            return Err(
                                LexError::UnexpectedCharacter {
                                    character: s[j],
                                    position: ind + j,
                                },
                            );
                        } else {
                            return Err(e);
                        }
                    },
                }
                i = j;
            },
        }
    }
    let n = tokens.len();
    if n > 0 && (tokens[n - 1].is_op() || tokens[n - 1].is_neg()) {
        Err(LexError::UnexpectedEOF)
    } else {
        Ok(tokens)
    }
}

/// The tokens of a text.
pub fn lex(s: &str) -> (r: Result<Vec<Token>, LexError>)
    ensures
        tokens_result_view(r) == lex_spec(s@),
{
    let chars = to_chars(s);
    lex_ind(&chars, 0)
}

} // verus!
