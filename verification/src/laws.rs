//! What holds of the lexer, the contextualizer and the reducer together.

use vstd::prelude::*;
use crate::ast::{first_non_function, negated, negation_depth, unnegated, ExpressionView};
use crate::env::VariableValueView;
use crate::grammar::{
    digits_end, ends_open, exponent_digits_start, group_close, has_exponent, has_point, is_literal,
    is_sign, lemma_digits_end, lemma_group_close_bounds, lemma_ident_end,
    lemma_number_end_bounds, lex_from, lex_spec, mantissa_closed, mantissa_end, number_complete,
    number_end, start_of, surfaced, token_end, token_value, LexError, Start,
};
use crate::operator::{Operator, OperatorPrecedence};
use crate::syntax::{
    ast_of, contextualize, contextualize_from, first_of_tier, fold_at, folded, initial_context,
    reduce, reduce_tier, step, with_operand, Bindings, Context, ParseErrorView,
};
use crate::text::{is_digit, is_ident_char};
use crate::token::TokenView;

verus! {

/// A decimal literal is lexed as one number token that holds the literal.
pub proof fn lemma_literal_lexes_to_itself(s: Seq<char>)
    requires
        is_literal(s),
    ensures
        lex_spec(s) == Ok::<Seq<TokenView>, LexError>(seq![TokenView::Number(s)]),
{
    let none = Seq::<TokenView>::empty();
    assert(start_of(s[0], none) == Start::Number);
    assert(s.subrange(0, s.len() as int) =~= s);
    let one = none.push(TokenView::Number(s));
    assert(one =~= seq![TokenView::Number(s)]);
    assert(lex_from(s, 0, s.len() as int, one) == Ok::<Seq<TokenView>, LexError>(one));
    assert(token_value(Start::Number, s, 0, 0) == Ok::<TokenView, LexError>(TokenView::Number(s)));
    assert(token_end(Start::Number, s, 0) == s.len());
}

/// A single number token is parsed as the number that it holds, whatever
/// the environment.
pub proof fn lemma_number_parses_to_itself(vars: Bindings, text: Seq<char>)
    ensures
        ast_of(vars, seq![TokenView::Number(text)]) == Ok::<ExpressionView, ParseErrorView>(
            ExpressionView::Number(text),
        ),
{
    let tokens = seq![TokenView::Number(text)];
    let start = initial_context();
    let next = with_operand(start, ExpressionView::Number(text), false);
    assert(step(vars, start, tokens[0]) == Ok::<Context, ParseErrorView>(next));
    assert(contextualize_from(vars, tokens, 1, next) == Ok::<Context, ParseErrorView>(next));
    assert(contextualize_from(vars, tokens, 0, start) == Ok::<Context, ParseErrorView>(next));
    assert(negated(ExpressionView::Number(text), 0) == ExpressionView::Number(text));
    let expressions = seq![ExpressionView::Number(text)];
    let operators = Seq::<Operator>::empty();
    assert(next.expressions =~= expressions);
    assert(next.operators =~= operators);
    assert(first_of_tier(operators, OperatorPrecedence::Exp, 0) == 0);
    assert(first_of_tier(operators, OperatorPrecedence::MultDiv, 0) == 0);
    assert(first_of_tier(operators, OperatorPrecedence::PlusMinus, 0) == 0);
    assert(reduce(expressions, operators) == Ok::<ExpressionView, ParseErrorView>(
        ExpressionView::Number(text),
    ));
}

/// The tokens of a text never end in an operator or a negation mark.
pub proof fn lemma_lexed_tokens_end_closed(s: Seq<char>, base: nat, i: int, before: Seq<TokenView>)
    requires
        0 <= i,
    ensures
        lex_from(s, base, i, before) matches Ok(tokens) ==> !ends_open(tokens),
    decreases s.len() - i,
{
    if i < s.len() {
        match start_of(s[i], before) {
            Start::Skip => {
                lemma_lexed_tokens_end_closed(s, base, i + 1, before);
            },
            Start::Reject => {},
            kind => {
                let end = token_end(kind, s, i);
                match token_value(kind, s, base, i) {
                    Ok(t) => {
                        if i < end <= s.len() {
                            lemma_lexed_tokens_end_closed(s, base, end, before.push(t));
                        }
                    },
                    Err(_) => {},
                }
            },
        }
    }
}

/// Every token ends behind its start and inside the text, so that the lexer
/// goes on behind each token that it has built.
pub proof fn lemma_token_advances(kind: Start, s: Seq<char>, i: int)
    requires
        0 <= i < s.len(),
        kind == Start::Number ==> is_digit(s[i]),
        kind == Start::Identifier ==> is_ident_char(s[i]),
    ensures
        i < token_end(kind, s, i) <= s.len(),
{
    match kind {
        Start::Number => lemma_number_end_bounds(s, i),
        Start::Identifier => lemma_ident_end(s, i),
        Start::Group => lemma_group_close_bounds(s, i + 1, 1),
        _ => {},
    }
}


/// Whether no operator of the list belongs to the tier.
pub open spec fn none_of_tier(operators: Seq<Operator>, tier: OperatorPrecedence) -> bool {
    forall|q: int| 0 <= q < operators.len() ==> (#[trigger] operators[q]).tier() != tier
}

/// Before the first operator of a tier stands none of the tier, and the
/// operator there is one.
pub proof fn lemma_first_of_tier_found(
    operators: Seq<Operator>,
    tier: OperatorPrecedence,
    from: int,
)
    requires
        0 <= from <= operators.len(),
    ensures
        from <= first_of_tier(operators, tier, from) <= operators.len(),
        forall|q: int|
            from <= q < first_of_tier(operators, tier, from) ==> (#[trigger] operators[q]).tier()
                != tier,
        first_of_tier(operators, tier, from) < operators.len() ==> operators[first_of_tier(
            operators,
            tier,
            from,
        )].tier() == tier,
    decreases operators.len() - from,
{
    if from < operators.len() && operators[from].tier() != tier {
        lemma_first_of_tier_found(operators, tier, from + 1);
    }
}

/// Folding a tier keeps the lists one operand apart, leaves no operator of
/// the tier, and brings in no operator of a tier that was absent.
pub proof fn lemma_reduce_tier_clears(
    expressions: Seq<ExpressionView>,
    operators: Seq<Operator>,
    tier: OperatorPrecedence,
    absent: OperatorPrecedence,
)
    requires
        expressions.len() == operators.len() + 1,
    ensures
        reduce_tier(expressions, operators, tier).0.len() == reduce_tier(
            expressions,
            operators,
            tier,
        ).1.len() + 1,
        none_of_tier(reduce_tier(expressions, operators, tier).1, tier),
        none_of_tier(operators, absent) ==> none_of_tier(
            reduce_tier(expressions, operators, tier).1,
            absent,
        ),
    decreases operators.len(),
{
    lemma_first_of_tier_found(operators, tier, 0);
    let k = first_of_tier(operators, tier, 0);
    if k < operators.len() {
        let rest = operators.remove(k);
        if none_of_tier(operators, absent) {
            assert forall|q: int| 0 <= q < rest.len() implies (#[trigger] rest[q]).tier()
                != absent by {
                if q < k {
                    assert(rest[q] == operators[q]);
                } else {
                    assert(rest[q] == operators[q + 1]);
                }
            }
        }
        lemma_reduce_tier_clears(
            fold_at(expressions, operators, k, tier == OperatorPrecedence::Exp),
            rest,
            tier,
            absent,
        );
    }
}

/// Lists that hold one operand more than operators always reduce to a tree.
pub proof fn lemma_reduce_total(expressions: Seq<ExpressionView>, operators: Seq<Operator>)
    requires
        expressions.len() == operators.len() + 1,
    ensures
        reduce(expressions, operators) is Ok,
{
    let (e1, o1) = reduce_tier(expressions, operators, OperatorPrecedence::Exp);
    let (e2, o2) = reduce_tier(e1, o1, OperatorPrecedence::MultDiv);
    let (e3, o3) = reduce_tier(e2, o2, OperatorPrecedence::PlusMinus);
    lemma_reduce_tier_clears(
        expressions,
        operators,
        OperatorPrecedence::Exp,
        OperatorPrecedence::Exp,
    );
    lemma_reduce_tier_clears(e1, o1, OperatorPrecedence::MultDiv, OperatorPrecedence::Exp);
    lemma_reduce_tier_clears(e2, o2, OperatorPrecedence::PlusMinus, OperatorPrecedence::Exp);
    lemma_reduce_tier_clears(e2, o2, OperatorPrecedence::PlusMinus, OperatorPrecedence::MultDiv);
    if o3.len() > 0 {
        let op = o3[0];
        assert(op.tier() != OperatorPrecedence::Exp);
        assert(op.tier() != OperatorPrecedence::MultDiv);
        assert(op.tier() != OperatorPrecedence::PlusMinus);
    }
}

/// Where a token sequence has operand and operator lists, it has a tree:
/// the reducer fails on no lists that the contextualizer gives.
pub proof fn lemma_contextualized_reduces(vars: Bindings, tokens: Seq<TokenView>)
    ensures
        contextualize(vars, tokens) matches Ok(lists) ==> {
            &&& lists.0.len() == lists.1.len() + 1
            &&& ast_of(vars, tokens) is Ok
        },
{
    match contextualize(vars, tokens) {
        Ok(lists) => {
            lemma_reduce_total(lists.0, lists.1);
        },
        Err(_) => {},
    }
}


/// Whether every call in the tree names a function of the environment.
pub open spec fn calls_resolve(e: ExpressionView, vars: Bindings) -> bool {
    first_non_function(e, vars) is None
}

/// Whether every call in every operand names a function of the environment.
pub open spec fn all_resolve(expressions: Seq<ExpressionView>, vars: Bindings) -> bool {
    forall|k: int| 0 <= k < expressions.len() ==> calls_resolve(#[trigger] expressions[k], vars)
}

/// Whether the operands of a context and the name that waits for its
/// argument resolve in the environment.
pub open spec fn context_resolves(c: Context, vars: Bindings) -> bool {
    &&& all_resolve(c.expressions, vars)
    &&& c.func matches Some(name) ==> vars.contains_key(name) && vars[name] is Function
}

/// Negation layers change no call.
pub proof fn lemma_negated_calls(e: ExpressionView, n: nat, vars: Bindings)
    ensures
        first_non_function(negated(e, n), vars) == first_non_function(e, vars),
    decreases n,
{
    if n > 0 {
        lemma_negated_calls(e, (n - 1) as nat, vars);
    }
}

/// Taking the negation layers off changes no call.
pub proof fn lemma_unnegated_calls(e: ExpressionView, vars: Bindings)
    ensures
        first_non_function(unnegated(e), vars) == first_non_function(e, vars),
    decreases e,
{
    match e {
        ExpressionView::Negation(inner) => {
            lemma_unnegated_calls(*inner, vars);
        },
        _ => {},
    }
}

/// The tree of an operator and two operands whose calls resolve has calls
/// that resolve.
pub proof fn lemma_folded_calls(
    op: Operator,
    left: ExpressionView,
    right: ExpressionView,
    is_exp: bool,
    vars: Bindings,
)
    requires
        calls_resolve(left, vars),
        calls_resolve(right, vars),
    ensures
        calls_resolve(folded(op, left, right, is_exp), vars),
{
    if is_exp {
        lemma_unnegated_calls(left, vars);
        lemma_negated_calls(
            ExpressionView::Binary {
                op,
                left: Box::new(unnegated(left)),
                right: Box::new(right),
            },
            negation_depth(left),
            vars,
        );
    }
}

/// Folding a tier of operands whose calls resolve gives operands whose calls
/// resolve.
pub proof fn lemma_reduce_tier_calls(
    expressions: Seq<ExpressionView>,
    operators: Seq<Operator>,
    tier: OperatorPrecedence,
    vars: Bindings,
)
    requires
        expressions.len() == operators.len() + 1,
        all_resolve(expressions, vars),
    ensures
        all_resolve(reduce_tier(expressions, operators, tier).0, vars),
    decreases operators.len(),
{
    lemma_first_of_tier_found(operators, tier, 0);
    let k = first_of_tier(operators, tier, 0);
    if k < operators.len() {
        let is_exp = tier == OperatorPrecedence::Exp;
        let next = fold_at(expressions, operators, k, is_exp);
        lemma_folded_calls(operators[k], expressions[k], expressions[k + 1], is_exp, vars);
        assert forall|q: int| 0 <= q < next.len() implies calls_resolve(#[trigger] next[q], vars) by {
            if q < k {
                assert(next[q] == expressions[q]);
            } else if q > k {
                assert(next[q] == expressions[q + 1]);
            }
        }
        lemma_reduce_tier_calls(next, operators.remove(k), tier, vars);
    }
}

/// The tree that operands whose calls resolve reduce to has calls that
/// resolve.
pub proof fn lemma_reduce_calls(
    expressions: Seq<ExpressionView>,
    operators: Seq<Operator>,
    vars: Bindings,
)
    requires
        all_resolve(expressions, vars),
    ensures
        reduce(expressions, operators) matches Ok(e) ==> calls_resolve(e, vars),
{
    if expressions.len() == operators.len() + 1 {
        let (e1, o1) = reduce_tier(expressions, operators, OperatorPrecedence::Exp);
        let (e2, o2) = reduce_tier(e1, o1, OperatorPrecedence::MultDiv);
        lemma_reduce_tier_clears(
            expressions,
            operators,
            OperatorPrecedence::Exp,
            OperatorPrecedence::Exp,
        );
        lemma_reduce_tier_clears(e1, o1, OperatorPrecedence::MultDiv, OperatorPrecedence::Exp);
        lemma_reduce_tier_calls(expressions, operators, OperatorPrecedence::Exp, vars);
        lemma_reduce_tier_calls(e1, o1, OperatorPrecedence::MultDiv, vars);
        lemma_reduce_tier_calls(e2, o2, OperatorPrecedence::PlusMinus, vars);
    }
}

/// A tree built from tokens can be evaluated in the environment that it was
/// built in: every call in it names a function.
pub proof fn lemma_ast_calls_resolve(vars: Bindings, tokens: Seq<TokenView>)
    ensures
        ast_of(vars, tokens) matches Ok(e) ==> calls_resolve(e, vars),
    decreases tokens, tokens.len() + 2,
{
    lemma_contextualize_calls(vars, tokens, 0, initial_context());
    match contextualize(vars, tokens) {
        Ok((expressions, operators)) => {
            lemma_reduce_calls(expressions, operators, vars);
        },
        Err(_) => {},
    }
}

/// The contextualizer keeps the calls of its operands resolved.
pub proof fn lemma_contextualize_calls(vars: Bindings, tokens: Seq<TokenView>, i: int, c: Context)
    requires
        context_resolves(c, vars),
    ensures
        contextualize_from(vars, tokens, i, c) matches Ok(last) ==> context_resolves(last, vars),
    decreases tokens, tokens.len() - i,
{
    if 0 <= i < tokens.len() {
        lemma_step_calls(vars, c, tokens[i]);
        match step(vars, c, tokens[i]) {
            Ok(next) => {
                lemma_contextualize_calls(vars, tokens, i + 1, next);
            },
            Err(_) => {},
        }
    }
}

/// One token keeps the calls of the operands resolved.
pub proof fn lemma_step_calls(vars: Bindings, c: Context, t: TokenView)
    requires
        context_resolves(c, vars),
    ensures
        step(vars, c, t) matches Ok(next) ==> context_resolves(next, vars),
    decreases t, 0nat,
{
    match step(vars, c, t) {
        Ok(next) => {
            match t {
                TokenView::Parentheses(inner) => {
                    lemma_ast_calls_resolve(vars, inner);
                    let sub = ast_of(vars, inner)->Ok_0;
                    let operand = match c.func {
                        Some(name) => ExpressionView::CallExpresion {
                            arg: Box::new(sub),
                            func: name,
                        },
                        None => ExpressionView::Paren(Box::new(sub)),
                    };
                    lemma_negated_calls(operand, c.negations, vars);
                    lemma_operand_calls(c, operand, true, vars);
                },
                TokenView::Number(text) => {
                    lemma_negated_calls(ExpressionView::Number(text), c.negations, vars);
                    lemma_operand_calls(c, ExpressionView::Number(text), false, vars);
                },
                TokenView::Var(name) => {
                    match vars[name] {
                        VariableValueView::Constant(text) => {
                            lemma_negated_calls(ExpressionView::Number(text), c.negations, vars);
                            lemma_operand_calls(c, ExpressionView::Number(text), true, vars);
                        },
                        VariableValueView::Function(_) => {},
                    }
                },
                _ => {},
            }
        },
        Err(_) => {},
    }
}

/// Appending an operand whose calls resolve keeps the calls of the operands
/// resolved.
pub proof fn lemma_operand_calls(c: Context, e: ExpressionView, closing: bool, vars: Bindings)
    requires
        all_resolve(c.expressions, vars),
        calls_resolve(negated(e, c.negations), vars),
    ensures
        context_resolves(with_operand(c, e, closing), vars),
{
    let next = with_operand(c, e, closing);
    assert forall|k: int| 0 <= k < next.expressions.len() implies calls_resolve(
        #[trigger] next.expressions[k],
        vars,
    ) by {
        if k < c.expressions.len() {
            assert(next.expressions[k] == c.expressions[k]);
        }
    }
}


/// A decimal literal is lexed and parsed as the number that holds it,
/// whatever the environment.
pub proof fn lemma_literal_round_trip(vars: Bindings, s: Seq<char>)
    requires
        is_literal(s),
    ensures
        lex_spec(s) matches Ok(tokens) && ast_of(vars, tokens) == Ok::<
            ExpressionView,
            ParseErrorView,
        >(ExpressionView::Number(s)),
{
    lemma_literal_lexes_to_itself(s);
    lemma_number_parses_to_itself(vars, s);
}

/// Whether the error, where it names a character, names the one that stands
/// at the reported position of the text `s`, which starts at offset `base`
/// of the whole text.
pub open spec fn points_into(e: LexError, s: Seq<char>, base: nat) -> bool {
    e matches LexError::UnexpectedCharacter { character, position } ==> {
        &&& base <= position < base + s.len()
        &&& s[position - base] == character
    }
}

/// An unexpected character is reported with its own offset in the text that
/// was lexed, also where it stands inside nested groups.
pub proof fn lemma_error_position(s: Seq<char>, base: nat, i: int, before: Seq<TokenView>)
    requires
        0 <= i,
        base + s.len() <= usize::MAX,
    ensures
        lex_from(s, base, i, before) matches Err(e) ==> points_into(e, s, base),
    decreases s.len(), s.len() - i + 1,
{
    if i < s.len() {
        match start_of(s[i], before) {
            Start::Skip => {
                lemma_error_position(s, base, i + 1, before);
            },
            Start::Reject => {},
            kind => {
                let end = token_end(kind, s, i);
                lemma_token_error_position(kind, s, base, i);
                match token_value(kind, s, base, i) {
                    Ok(t) => {
                        if i < end <= s.len() {
                            lemma_error_position(s, base, end, before.push(t));
                        }
                    },
                    Err(e) => {
                        assert(points_into(surfaced(e, s, base, end), s, base));
                    },
                }
            },
        }
    }
}

/// A token that cannot be built over an unexpected character reports the
/// character with its own offset.
pub proof fn lemma_token_error_position(kind: Start, s: Seq<char>, base: nat, i: int)
    requires
        0 <= i < s.len(),
        base + s.len() <= usize::MAX,
    ensures
        token_value(kind, s, base, i) matches Err(e) ==> points_into(e, s, base),
    decreases s.len(), 0nat,
{
    if kind == Start::Group {
        let close = group_close(s, i + 1, 1);
        lemma_group_close_bounds(s, i + 1, 1);
        if i + 1 < close < s.len() {
            let inner = s.subrange(i + 1, close);
            lemma_error_position(inner, (base + i + 1) as nat, 0, Seq::empty());
            match lex_from(inner, (base + i + 1) as nat, 0, Seq::empty()) {
                Err(LexError::UnexpectedCharacter { character, position }) => {
                    assert(inner[position - (base + i + 1)] == s[position - base]);
                },
                _ => {},
            }
        }
    }
}

/// An unexpected character that the lexer reports for a text stands in the
/// text at the reported index.
pub proof fn lemma_reported_character(s: Seq<char>)
    requires
        s.len() <= usize::MAX,
    ensures
        lex_spec(s) matches Err(LexError::UnexpectedCharacter { character, position })
            ==> position < s.len() && s[position as int] == character,
{
    lemma_error_position(s, 0, 0, Seq::empty());
}


/// A run of digits in a part of a text ends where the run in the text
/// ends, or with the part.
pub proof fn lemma_digits_end_of_part(s: Seq<char>, a: int, b: int, j: int)
    requires
        0 <= a <= j <= b <= s.len(),
    ensures
        digits_end(s.subrange(a, b), j - a) == (if digits_end(s, j) <= b {
            digits_end(s, j)
        } else {
            b
        }) - a,
    decreases b - j,
{
    let part = s.subrange(a, b);
    lemma_digits_end(s, j);
    if j < b {
        assert(part[j - a] == s[j]);
        if is_digit(s[j]) {
            lemma_digits_end_of_part(s, a, b, j + 1);
        }
    }
}

/// The text of a complete number is a decimal literal.
pub proof fn lemma_number_text_is_literal(s: Seq<char>, i: int)
    requires
        0 <= i < s.len(),
        is_digit(s[i]),
        number_complete(s, i),
    ensures
        is_literal(s.subrange(i, number_end(s, i))),
{
    let e = number_end(s, i);
    let p = digits_end(s, i);
    let m = mantissa_end(s, i);
    let d = exponent_digits_start(s, i);
    let t = s.subrange(i, e);
    lemma_number_end_bounds(s, i);
    lemma_digits_end_of_part(s, i, e, i);
    assert(t[0] == s[i]);
    assert(digits_end(t, 0) == p - i);
    if p < e {
        assert(t[p - i] == s[p]);
    }
    assert(has_point(t, 0) == has_point(s, i));
    if has_point(s, i) {
        lemma_digits_end_of_part(s, i, e, p + 1);
    }
    assert(mantissa_end(t, 0) == m - i);
    assert(mantissa_closed(t, 0) == mantissa_closed(s, i));
    if m < e {
        assert(t[m - i] == s[m]);
    }
    assert(has_exponent(t, 0) == has_exponent(s, i));
    if has_exponent(s, i) {
        if m + 1 < e {
            assert(t[m + 1 - i] == s[m + 1]);
        }
        if m + 1 < s.len() && is_sign(s[m + 1]) {
            lemma_digits_end(s, m + 2);
        }
        assert(exponent_digits_start(t, 0) == d - i);
        lemma_digits_end_of_part(s, i, e, d);
    }
}

/// Whether every number in the token, also inside groups, holds a decimal
/// literal.
pub open spec fn holds_literals(t: TokenView) -> bool
    decreases t,
{
    match t {
        TokenView::Number(text) => is_literal(text),
        TokenView::Parentheses(inner) => forall|k: int|
            0 <= k < inner.len() ==> holds_literals(#[trigger] inner[k]),
        _ => true,
    }
}

/// Whether every number in the tokens holds a decimal literal.
pub open spec fn all_hold_literals(tokens: Seq<TokenView>) -> bool {
    forall|k: int| 0 <= k < tokens.len() ==> holds_literals(#[trigger] tokens[k])
}

/// Every number token that the lexer gives holds a decimal literal.
pub proof fn lemma_lexed_numbers_are_literals(
    s: Seq<char>,
    base: nat,
    i: int,
    before: Seq<TokenView>,
)
    requires
        0 <= i,
        all_hold_literals(before),
    ensures
        lex_from(s, base, i, before) matches Ok(tokens) ==> all_hold_literals(tokens),
    decreases s.len(), s.len() - i + 1,
{
    if i < s.len() {
        match start_of(s[i], before) {
            Start::Skip => {
                lemma_lexed_numbers_are_literals(s, base, i + 1, before);
            },
            Start::Reject => {},
            kind => {
                let end = token_end(kind, s, i);
                match token_value(kind, s, base, i) {
                    Ok(t) => {
                        if i < end <= s.len() {
                            lemma_token_holds_literals(kind, s, base, i);
                            let next = before.push(t);
                            assert forall|k: int| 0 <= k < next.len() implies holds_literals(
                                #[trigger] next[k],
                            ) by {
                                if k < before.len() {
                                    assert(next[k] == before[k]);
                                }
                            }
                            lemma_lexed_numbers_are_literals(s, base, end, next);
                        }
                    },
                    Err(_) => {},
                }
            },
        }
    }
}

/// Every number in a token of the grammar holds a decimal literal.
pub proof fn lemma_token_holds_literals(kind: Start, s: Seq<char>, base: nat, i: int)
    requires
        0 <= i < s.len(),
        kind == Start::Number ==> is_digit(s[i]),
    ensures
        token_value(kind, s, base, i) matches Ok(t) ==> holds_literals(t),
    decreases s.len(), 0nat,
{
    match kind {
        Start::Number => {
            if number_complete(s, i) {
                lemma_number_text_is_literal(s, i);
            }
        },
        Start::Group => {
            let close = group_close(s, i + 1, 1);
            lemma_group_close_bounds(s, i + 1, 1);
            if i + 1 < close < s.len() {
                lemma_lexed_numbers_are_literals(
                    s.subrange(i + 1, close),
                    (base + i + 1) as nat,
                    0,
                    Seq::empty(),
                );
            }
        },
        _ => {},
    }
}

/// Every number among the tokens of a text holds a decimal literal.
pub proof fn lemma_lex_gives_literals(s: Seq<char>)
    ensures
        lex_spec(s) matches Ok(tokens) ==> all_hold_literals(tokens),
{
    lemma_lexed_numbers_are_literals(s, 0, 0, Seq::empty());
}

/// A group whose closing parenthesis never comes leaves the text
/// incomplete, also where nothing stands behind its opening parenthesis.
pub proof fn lemma_unclosed_group_is_incomplete(
    s: Seq<char>,
    base: nat,
    i: int,
    before: Seq<TokenView>,
)
    requires
        0 <= i < s.len(),
        start_of(s[i], before) == Start::Group,
        group_close(s, i + 1, 1) >= s.len(),
    ensures
        lex_from(s, base, i, before) == Err::<Seq<TokenView>, LexError>(LexError::UnexpectedEOF),
{
    assert(token_end(Start::Group, s, i) == s.len());
    assert(token_value(Start::Group, s, base, i) == Err::<TokenView, LexError>(
        LexError::UnexpectedEOF,
    ));
}

/// A closing parenthesis directly behind its opening parenthesis is an
/// empty group.
pub proof fn lemma_empty_group(s: Seq<char>, base: nat, i: int, before: Seq<TokenView>)
    requires
        0 <= i,
        i + 1 < s.len(),
        start_of(s[i], before) == Start::Group,
        s[i + 1] == ')',
    ensures
        lex_from(s, base, i, before) == Err::<Seq<TokenView>, LexError>(
            LexError::EmptyParentheses,
        ),
{
    assert(group_close(s, i + 1, 1) == i + 1);
    assert(token_value(Start::Group, s, base, i) == Err::<TokenView, LexError>(
        LexError::EmptyParentheses,
    ));
}

/// Whether a closing parenthesis stands directly behind an opening one
/// somewhere in the text.
pub open spec fn holds_empty_pair(s: Seq<char>) -> bool {
    exists|k: int| 0 <= k && k + 1 < s.len() && #[trigger] s[k] == '(' && s[k + 1] == ')'
}

/// Empty parentheses are reported only for a text in which a closing
/// parenthesis stands directly behind an opening one: a group that is never
/// closed is not empty.
pub proof fn lemma_empty_parentheses_stand_in_text(
    s: Seq<char>,
    base: nat,
    i: int,
    before: Seq<TokenView>,
)
    requires
        0 <= i,
    ensures
        lex_from(s, base, i, before) == Err::<Seq<TokenView>, LexError>(
            LexError::EmptyParentheses,
        ) ==> holds_empty_pair(s),
    decreases s.len(), s.len() - i + 1,
{
    if i < s.len() {
        match start_of(s[i], before) {
            Start::Skip => {
                lemma_empty_parentheses_stand_in_text(s, base, i + 1, before);
            },
            Start::Reject => {},
            kind => {
                let end = token_end(kind, s, i);
                lemma_empty_group_stands_in_text(kind, s, base, i);
                match token_value(kind, s, base, i) {
                    Ok(t) => {
                        if i < end <= s.len() {
                            lemma_empty_parentheses_stand_in_text(s, base, end, before.push(t));
                        }
                    },
                    Err(_) => {},
                }
            },
        }
    }
}

/// A token is refused for empty parentheses only where a closing parenthesis
/// stands directly behind an opening one.
pub proof fn lemma_empty_group_stands_in_text(kind: Start, s: Seq<char>, base: nat, i: int)
    requires
        0 <= i < s.len(),
        kind == Start::Group ==> s[i] == '(',
    ensures
        token_value(kind, s, base, i) == Err::<TokenView, LexError>(LexError::EmptyParentheses)
            ==> holds_empty_pair(s),
    decreases s.len(), 0nat,
{
    if kind == Start::Group {
        let close = group_close(s, i + 1, 1);
        lemma_group_close_bounds(s, i + 1, 1);
        if close < s.len() {
            if close <= i + 1 {
                assert(s[i] == '(' && s[i + 1] == ')');
            } else {
                let inner = s.subrange(i + 1, close);
                lemma_empty_parentheses_stand_in_text(inner, (base + i + 1) as nat, 0, Seq::empty());
                if holds_empty_pair(inner) {
                    let k = choose|k: int|
                        0 <= k && k + 1 < inner.len() && #[trigger] inner[k] == '(' && inner[k + 1]
                            == ')';
                    assert(s[i + 1 + k] == '(' && s[i + 1 + k + 1] == ')');
                }
            }
        }
    }
}

} // verus!
