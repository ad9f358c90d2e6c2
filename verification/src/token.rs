//! Tokens, the output of the lexer.

use vstd::prelude::*;
use vstd::string::*;
use crate::operator::Operator;
use crate::text::push_char;

verus! {

/// A lexical token.
///
/// A number holds the text of its decimal literal; a group holds the tokens
/// between a pair of matching parentheses.
#[derive(Debug, PartialEq, Eq)]
pub enum Token {
    Number(String),
    Op(Operator),
    Var(String),
    Parentheses(Vec<Token>),
    Negation,
}

/// The mathematical value of a token.
pub enum TokenView {
    Number(Seq<char>),
    Op(Operator),
    Var(Seq<char>),
    Parentheses(Seq<TokenView>),
    Negation,
}

impl View for Token {
    type V = TokenView;

    open spec fn view(&self) -> TokenView
        decreases self,
    {
        match self {
            Token::Number(text) => TokenView::Number(text@),
            Token::Op(op) => TokenView::Op(*op),
            Token::Var(name) => TokenView::Var(name@),
            Token::Parentheses(inner) => TokenView::Parentheses(
                Seq::new(
                    inner.len() as nat,
                    |i: int|
                        if 0 <= i < inner.len() {
                            inner[i].view()
                        } else {
                            TokenView::Negation
                        },
                ),
            ),
            Token::Negation => TokenView::Negation,
        }
    }
}

/// The values of a sequence of tokens.
pub open spec fn views(tokens: Seq<Token>) -> Seq<TokenView> {
    Seq::new(tokens.len(), |i: int| tokens[i]@)
}

/// The value of a group is the values of its tokens.
pub proof fn lemma_group_view(inner: Vec<Token>)
    ensures
        Token::Parentheses(inner)@ == TokenView::Parentheses(views(inner@)),
{
    let t = Token::Parentheses(inner);
    assert(t@->Parentheses_0 =~= views(inner@));
}

/// Appending a token appends its value.
pub proof fn lemma_views_push(tokens: Seq<Token>, t: Token)
    ensures
        views(tokens.push(t)) == views(tokens).push(t@),
{
    assert(views(tokens.push(t)) =~= views(tokens).push(t@));
}

/// The words that describe a token: its kind, and its value where it has one.
pub open spec fn descriptor(t: TokenView) -> Seq<char> {
    match t {
        TokenView::Number(text) => "number "@ + text,
        TokenView::Parentheses(_) => "parentheses expression"@,
        TokenView::Var(name) => "variable "@ + name,
        TokenView::Op(op) => "operator "@.push(op.symbol()),
        TokenView::Negation => "token '-'"@,
    }
}

impl Clone for Token {
    fn clone(&self) -> (r: Token)
        ensures
            r@ == self@,
        decreases self,
    {
        match self {
            Token::Number(text) => Token::Number(text.clone()),
            Token::Op(op) => Token::Op(*op),
            Token::Var(name) => Token::Var(name.clone()),
            Token::Parentheses(inner) => {
                let mut copy: Vec<Token> = Vec::new();
                let mut i: usize = 0;
                while i < inner.len()
                    invariant
                        self is Parentheses,
                        self->Parentheses_0 == *inner,
                        i <= inner.len(),
                        copy.len() == i,
                        forall|k: int| 0 <= k < i ==> copy[k]@ == inner[k]@,
                    decreases inner.len() - i,
                {
                    assert(decreases_to!(*self => self->Parentheses_0));
                    copy.push(inner[i].clone());
                    i += 1;
                }
                proof {
                    assert(views(copy@) =~= views(inner@));
                    lemma_group_view(copy);
                    lemma_group_view(*inner);
                }
                Token::Parentheses(copy)
            },
            Token::Negation => Token::Negation,
        }
    }
}

impl Token {
    /// Whether the token is an operator.
    pub fn is_op(&self) -> (r: bool)
        ensures
            r == (self@ is Op),
    {
        match self {
            Token::Op(_) => true,
            _ => false,
        }
    }

    /// Whether the token is a negation mark.
    pub fn is_neg(&self) -> (r: bool)
        ensures
            r == (self@ is Negation),
    {
        match self {
            Token::Negation => true,
            _ => false,
        }
    }

    /// Whether the token is a number.
    pub fn is_num(&self) -> (r: bool)
        ensures
            r == (self@ is Number),
    {
        match self {
            Token::Number(_) => true,
            _ => false,
        }
    }

    /// Whether the token is an identifier.
    pub fn is_var(&self) -> (r: bool)
        ensures
            r == (self@ is Var),
    {
        match self {
            Token::Var(_) => true,
            _ => false,
        }
    }

    /// Whether the token is a group.
    pub fn is_paren(&self) -> (r: bool)
        ensures
            r == (self@ is Parentheses),
    {
        match self {
            Token::Parentheses(_) => true,
            _ => false,
        }
    }

    /// The words that describe the token in a message.
    pub fn get_descriptor(&self) -> (r: String)
        ensures
            r@ == descriptor(self@),
    {
        match self {
            Token::Number(text) => {
                let mut r = String::from_str("number ");
                r.append(text.as_str());
                r
            },
            Token::Parentheses(_) => String::from_str("parentheses expression"),
            Token::Var(name) => {
                let mut r = String::from_str("variable ");
                r.append(name.as_str());
                r
            },
            Token::Op(op) => {
                let mut r = String::from_str("operator ");
                push_char(&mut r, op.get_char());
                r
            },
            Token::Negation => String::from_str("token '-'"),
        }
    }
}

} // verus!
