//! The syntax of expressions: which operand and operator lists a token
//! sequence denotes, and which tree the lists reduce to.

use vstd::prelude::*;
use crate::ast::{negated, negation_depth, unnegated, ExpressionView};
use crate::env::VariableValueView;
use crate::operator::{Operator, OperatorPrecedence};
use crate::token::TokenView;

verus! {

/// Why a token sequence has no expression tree.
pub enum ParseErrorView {
    UnexpectedEOF,
    UndefinedIdent(Seq<char>),
    UnexpectedToken(TokenView),
    NonFunction(Seq<char>),
}

/// The names that an expression may use.
pub type Bindings = Map<Seq<char>, VariableValueView>;

/// What the contextualizer knows after a prefix of the tokens.
pub struct Context {
    /// The operands so far.
    pub expressions: Seq<ExpressionView>,
    /// The operators so far.
    pub operators: Seq<Operator>,
    /// How many negation marks wait for their operand.
    pub negations: nat,
    /// The function name that waits for its argument.
    pub func: Option<Seq<char>>,
    /// Whether the last token closed a group or named a constant.
    pub last_paren: bool,
    /// Whether the last token was an operator.
    pub last_op: bool,
}

/// What the contextualizer knows before the first token.
pub open spec fn initial_context() -> Context {
    Context {
        expressions: Seq::empty(),
        operators: Seq::empty(),
        negations: 0,
        func: None,
        last_paren: false,
        last_op: false,
    }
}

/// The operators after an operand has been appended: where the lists are
/// not of equal length, a multiplication is put in first.
pub open spec fn with_implicit(c: Context) -> Seq<Operator> {
    if c.expressions.len() != c.operators.len() {
        c.operators.push(Operator::Mult)
    } else {
        c.operators
    }
}

/// The context after the operand `e` has been appended under the negation
/// marks that waited for it.
pub open spec fn with_operand(c: Context, e: ExpressionView, closing: bool) -> Context {
    Context {
        expressions: c.expressions.push(negated(e, c.negations)),
        operators: with_implicit(c),
        negations: 0,
        func: None,
        last_paren: closing,
        last_op: false,
    }
}

/// The context after one more token, or the error that the token causes.
pub open spec fn step(vars: Bindings, c: Context, t: TokenView) -> Result<Context, ParseErrorView>
    decreases t, 0nat,
{
    match t {
        TokenView::Parentheses(inner) => match ast_of(vars, inner) {
            Err(e) => Err(e),
            Ok(sub) => Ok(
                with_operand(
                    c,
                    match c.func {
                        Some(name) => ExpressionView::CallExpresion {
                            arg: Box::new(sub),
                            func: name,
                        },
                        None => ExpressionView::Paren(Box::new(sub)),
                    },
                    true,
                ),
            ),
        },
        _ => if c.func is Some {
            Err(ParseErrorView::UnexpectedToken(t))
        } else {
            match t {
                TokenView::Number(text) => if c.last_op || c.last_paren || c.expressions.len()
                    == 0 {
                    Ok(with_operand(c, ExpressionView::Number(text), false))
                } else {
                    Err(ParseErrorView::UnexpectedToken(t))
                },
                TokenView::Negation => Ok(Context { negations: c.negations + 1, ..c }),
                TokenView::Op(op) => if !c.last_op {
                    Ok(
                        Context {
                            operators: c.operators.push(op),
                            last_op: true,
                            last_paren: false,
                            ..c
                        },
                    )
                } else {
                    Err(ParseErrorView::UnexpectedToken(t))
                },
                TokenView::Var(name) => if !vars.contains_key(name) {
                    Err(ParseErrorView::UndefinedIdent(name))
                } else {
                    match vars[name] {
                        VariableValueView::Constant(text) => Ok(
                            with_operand(c, ExpressionView::Number(text), true),
                        ),
                        VariableValueView::Function(_) => Ok(Context { func: Some(name), ..c }),
                    }
                },
                TokenView::Parentheses(_) => Err(ParseErrorView::UnexpectedToken(t)),
            }
        },
    }
}

/// The context after the tokens from index `i` on, starting from `c`.
pub open spec fn contextualize_from(vars: Bindings, tokens: Seq<TokenView>, i: int, c: Context)
    -> Result<Context, ParseErrorView>
    decreases tokens, tokens.len() - i,
{
    if i < 0 || i >= tokens.len() {
        Ok(c)
    } else {
        match step(vars, c, tokens[i]) {
            Ok(next) => contextualize_from(vars, tokens, i + 1, next),
            Err(e) => Err(e),
        }
    }
}

/// The operand and operator lists that a token sequence denotes: one
/// operand more than operators, and no function name left without its
/// argument.
pub open spec fn contextualize(vars: Bindings, tokens: Seq<TokenView>) -> Result<
    (Seq<ExpressionView>, Seq<Operator>),
    ParseErrorView,
>
    decreases tokens, tokens.len() + 1,
{
    match contextualize_from(vars, tokens, 0, initial_context()) {
        Ok(c) => if c.expressions.len() == c.operators.len() + 1 && c.func is None {
            Ok((c.expressions, c.operators))
        } else {
            Err(ParseErrorView::UnexpectedEOF)
        },
        Err(e) => Err(e),
    }
}

/// The expression tree that a token sequence denotes.
pub open spec fn ast_of(vars: Bindings, tokens: Seq<TokenView>) -> Result<
    ExpressionView,
    ParseErrorView,
>
    decreases tokens, tokens.len() + 2,
{
    match contextualize(vars, tokens) {
        Ok((expressions, operators)) => reduce(expressions, operators),
        Err(e) => Err(e),
    }
}

/// The tree of one operator and its two operands. Under an exponent the
/// negation layers of the left operand are moved on top of the tree, so that
/// negation binds looser than exponentiation.
pub open spec fn folded(op: Operator, left: ExpressionView, right: ExpressionView, is_exp: bool)
    -> ExpressionView {
    if is_exp {
        negated(
            ExpressionView::Binary {
                op,
                left: Box::new(unnegated(left)),
                right: Box::new(right),
            },
            negation_depth(left),
        )
    } else {
        ExpressionView::Binary { op, left: Box::new(left), right: Box::new(right) }
    }
}

/// The operands after the operator at `k` has been folded with its two
/// operands.
pub open spec fn fold_at(
    expressions: Seq<ExpressionView>,
    operators: Seq<Operator>,
    k: int,
    is_exp: bool,
) -> Seq<ExpressionView> {
    expressions.subrange(0, k).push(
        folded(operators[k], expressions[k], expressions[k + 1], is_exp),
    ) + expressions.subrange(k + 2, expressions.len() as int)
}

/// The index of the first operator of the tier at or behind `from`, or the
/// length of the list where there is none.
pub open spec fn first_of_tier(operators: Seq<Operator>, tier: OperatorPrecedence, from: int) -> int
    decreases operators.len() - from,
{
    if from < 0 || from >= operators.len() {
        operators.len() as int
    } else if operators[from].tier() == tier {
        from
    } else {
        first_of_tier(operators, tier, from + 1)
    }
}

/// The lists after every operator of the tier has been folded, the
/// leftmost first.
pub open spec fn reduce_tier(
    expressions: Seq<ExpressionView>,
    operators: Seq<Operator>,
    tier: OperatorPrecedence,
) -> (Seq<ExpressionView>, Seq<Operator>)
    decreases operators.len(),
{
    let k = first_of_tier(operators, tier, 0);
    if 0 <= k < operators.len() {
        reduce_tier(
            fold_at(expressions, operators, k, tier == OperatorPrecedence::Exp),
            operators.remove(k),
            tier,
        )
    } else {
        (expressions, operators)
    }
}

/// The tree that the lists reduce to: the tiers are folded from the
/// tightest to the loosest.
pub open spec fn reduce(expressions: Seq<ExpressionView>, operators: Seq<Operator>) -> Result<
    ExpressionView,
    ParseErrorView,
> {
    if expressions.len() != operators.len() + 1 {
        Err(ParseErrorView::UnexpectedEOF)
    } else {
        let (e1, o1) = reduce_tier(expressions, operators, OperatorPrecedence::Exp);
        let (e2, o2) = reduce_tier(e1, o1, OperatorPrecedence::MultDiv);
        let (e3, o3) = reduce_tier(e2, o2, OperatorPrecedence::PlusMinus);
        if e3.len() == 1 && o3.len() == 0 {
            Ok(e3[0])
        } else {
            Err(ParseErrorView::UnexpectedEOF)
        }
    }
}

} // verus!
