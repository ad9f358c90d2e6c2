//! Expression trees, and their construction from tokens: the contextualizer
//! and the precedence-tier reducer.

use vstd::prelude::*;
use vstd::string::*;
use crate::env::{VarMap, VariableValue, VariableValueView};
use crate::operator::{Operator, OperatorPrecedence};
use crate::syntax::{
    ast_of, contextualize, contextualize_from, first_of_tier, fold_at, folded, initial_context,
    reduce, reduce_tier, step, Context, ParseErrorView,
};
use crate::text::push_char;
use crate::token::{descriptor, lemma_group_view, views, Token};

verus! {

/// An expression tree. A number holds the text of its decimal literal.
#[derive(Debug, PartialEq, Eq)]
pub enum Expression {
    Binary { op: Operator, left: Box<Expression>, right: Box<Expression> },
    CallExpresion { arg: Box<Expression>, func: String },
    Number(String),
    Paren(Box<Expression>),
    Negation(Box<Expression>),
}

/// The mathematical value of an expression tree.
pub enum ExpressionView {
    Binary { op: Operator, left: Box<ExpressionView>, right: Box<ExpressionView> },
    CallExpresion { arg: Box<ExpressionView>, func: Seq<char> },
    Number(Seq<char>),
    Paren(Box<ExpressionView>),
    Negation(Box<ExpressionView>),
}

impl View for Expression {
    type V = ExpressionView;

    open spec fn view(&self) -> ExpressionView
        decreases self,
    {
        match self {
            Expression::Binary { op, left, right } => ExpressionView::Binary {
                op: *op,
                left: Box::new((**left).view()),
                right: Box::new((**right).view()),
            },
            Expression::CallExpresion { arg, func } => ExpressionView::CallExpresion {
                arg: Box::new((**arg).view()),
                func: func@,
            },
            Expression::Number(text) => ExpressionView::Number(text@),
            Expression::Paren(inner) => ExpressionView::Paren(Box::new((**inner).view())),
            Expression::Negation(inner) => ExpressionView::Negation(Box::new((**inner).view())),
        }
    }
}

/// The expression under `n` layers of negation.
pub open spec fn negated(e: ExpressionView, n: nat) -> ExpressionView
    decreases n,
{
    if n == 0 {
        e
    } else {
        ExpressionView::Negation(Box::new(negated(e, (n - 1) as nat)))
    }
}

/// The number of negation layers on top of an expression.
pub open spec fn negation_depth(e: ExpressionView) -> nat
    decreases e,
{
    match e {
        ExpressionView::Negation(inner) => 1 + negation_depth(*inner),
        _ => 0,
    }
}

/// The expression under all its negation layers.
pub open spec fn unnegated(e: ExpressionView) -> ExpressionView
    decreases e,
{
    match e {
        ExpressionView::Negation(inner) => unnegated(*inner),
        _ => e,
    }
}

/// Negation layers can be added in two steps.
pub proof fn lemma_negated_twice(e: ExpressionView, m: nat, n: nat)
    ensures
        negated(negated(e, m), n) == negated(e, m + n),
    decreases n,
{
    if n > 0 {
        lemma_negated_twice(e, m, (n - 1) as nat);
    }
}

/// An expression under `n` layers of negation has `n` layers more, and the
/// same expression under them.
pub proof fn lemma_negated_depth(e: ExpressionView, n: nat)
    ensures
        negation_depth(negated(e, n)) == negation_depth(e) + n,
        unnegated(negated(e, n)) == unnegated(e),
    decreases n,
{
    if n > 0 {
        lemma_negated_depth(e, (n - 1) as nat);
    }
}

/// Every expression is what lies under its negation layers, under that many
/// layers.
pub proof fn lemma_negated_unnegated(e: ExpressionView)
    ensures
        negated(unnegated(e), negation_depth(e)) == e,
        !(unnegated(e) is Negation),
    decreases e,
{
    match e {
        ExpressionView::Negation(inner) => {
            lemma_negated_unnegated(*inner);
        },
        _ => {},
    }
}

impl Expression {
    /// Wraps the expression in `neg` layers of negation.
    pub fn negate(self, neg: usize) -> (r: Expression)
        ensures
            r@ == negated(self@, neg as nat),
    {
        let mut expr = self;
        let mut i: usize = 0;
        while i < neg
            invariant
                i <= neg,
                expr@ == negated(self@, i as nat),
            decreases neg - i,
        {
            expr = Expression::Negation(Box::new(expr));
            i += 1;
        }
        expr
    }

    /// Takes the negation layers off the expression and counts them. The
    /// count stops where the machine integer ends.
    pub fn non_neg(self) -> (r: (Expression, usize))
        ensures
            self@ == negated(r.0@, r.1 as nat),
            r.0@ is Negation ==> r.1 == usize::MAX,
            negation_depth(self@) <= usize::MAX ==> r.0@ == unnegated(self@) && r.1
                == negation_depth(self@),
    {
        let mut expr = self;
        let mut level: usize = 0;
        loop
            invariant
                self@ == negated(expr@, level as nat),
            ensures
                self@ == negated(expr@, level as nat),
                expr@ is Negation ==> level == usize::MAX,
            decreases expr,
        {
            if level == usize::MAX {
                break ;
            }
            match expr {
                Expression::Negation(inner) => {
                    proof {
                        reveal_with_fuel(negated, 2);
                        lemma_negated_twice(inner@, 1, level as nat);
                    }
                    expr = *inner;
                    level += 1;
                },
                other => {
                    expr = other;
                    break ;
                },
            }
        }
        proof {
            lemma_negated_depth(expr@, level as nat);
            lemma_negated_unnegated(expr@);
        }
        (expr, level)
    }
}


/// Why a token sequence has no expression tree.
#[derive(Debug, PartialEq, Eq)]
pub enum ParseError {
    UnexpectedEOF,
    UndefinedIdent(String),
    UnexpectedToken(Token),
    NonFunction(String),
}

impl View for ParseError {
    type V = ParseErrorView;

    open spec fn view(&self) -> ParseErrorView {
        match self {
            ParseError::UnexpectedEOF => ParseErrorView::UnexpectedEOF,
            ParseError::UndefinedIdent(name) => ParseErrorView::UndefinedIdent(name@),
            ParseError::UnexpectedToken(token) => ParseErrorView::UnexpectedToken(token@),
            ParseError::NonFunction(name) => ParseErrorView::NonFunction(name@),
        }
    }
}

/// The message of a parse error.
pub open spec fn parse_error_message(e: ParseErrorView) -> Seq<char> {
    match e {
        ParseErrorView::UnexpectedEOF => "Incomplete expression"@,
        ParseErrorView::UnexpectedToken(token) => "Unexpected "@ + descriptor(token),
        ParseErrorView::UndefinedIdent(name) => ("Undefined variable \""@ + name).push('"'),
        ParseErrorView::NonFunction(name) => seq!['"'] + name + "\" is not a function"@,
    }
}

impl ParseError {
    /// The message that tells a user what is wrong with the expression.
    pub fn message(&self) -> (r: String)
        ensures
            r@ == parse_error_message(self@),
    {
        match self {
            ParseError::UnexpectedEOF => String::from_str("Incomplete expression"),
            ParseError::UnexpectedToken(token) => {
                let mut r = String::from_str("Unexpected ");
                let words = token.get_descriptor();
                r.append(words.as_str());
                r
            },
            ParseError::UndefinedIdent(name) => {
                let mut r = String::from_str("Undefined variable \"");
                r.append(name.as_str());
                push_char(&mut r, '"');
                r
            },
            ParseError::NonFunction(name) => {
                let mut r = String::new();
                push_char(&mut r, '"');
                r.append(name.as_str());
                r.append("\" is not a function");
                assert(r@ =~= parse_error_message(self@));
                r
            },
        }
    }
}

/// The values of a sequence of expressions.
pub open spec fn expr_views(expressions: Seq<Expression>) -> Seq<ExpressionView> {
    Seq::new(expressions.len(), |i: int| expressions[i]@)
}

/// The value of a tree or the error in its place.
pub open spec fn expr_result_view(r: Result<Expression, ParseError>) -> Result<
    ExpressionView,
    ParseErrorView,
> {
    match r {
        Ok(e) => Ok(e@),
        Err(e) => Err(e@),
    }
}

/// The value of a pending function name.
pub open spec fn name_view(name: Option<String>) -> Option<Seq<char>> {
    match name {
        Some(s) => Some(s@),
        None => None,
    }
}

/// The operands and operators of an expression, side by side: the operator
/// at `i` stands between the operands at `i` and `i + 1`.
#[derive(Debug)]
pub struct ContextualizedTokens {
    pub expressions: Vec<Expression>,
    pub operators: Vec<Operator>,
}

impl ContextualizedTokens {
    /// The values of the operands.
    pub open spec fn operands(&self) -> Seq<ExpressionView> {
        expr_views(self.expressions@)
    }

    /// The negation layers on each operand can be counted in a machine
    /// integer.
    pub open spec fn bounded(&self) -> bool {
        forall|i: int|
            0 <= i < self.expressions.len() ==> negation_depth(#[trigger] self.expressions[i]@)
                <= usize::MAX
    }

    /// Folds the operator at `ind` with the operands on its two sides into
    /// one operand, where there is such an operator.
    pub fn reduce_at(&mut self, ind: usize, is_exp: bool)
        requires
            old(self).bounded(),
        ensures
            final(self).bounded(),
            ind < old(self).operators.len() && ind + 1 < old(self).expressions.len() ==> {
                &&& final(self).operands() == fold_at(
                    old(self).operands(),
                    old(self).operators@,
                    ind as int,
                    is_exp,
                )
                &&& final(self).operators@ == old(self).operators@.remove(ind as int)
                &&& final(self).expressions.len() == old(self).expressions.len() - 1
            },
            !(ind < old(self).operators.len() && ind + 1 < old(self).expressions.len()) ==> {
                &&& final(self).operands() == old(self).operands()
                &&& final(self).operators@ == old(self).operators@
                &&& final(self).expressions.len() == old(self).expressions.len()
            },
    {
        if ind < self.operators.len() && ind + 1 < self.expressions.len() {
            let ghost before = self.expressions@;
            let op = self.operators.remove(ind);
            let left = self.expressions.remove(ind);
            let right = self.expressions.remove(ind);
            let ghost left_view = left@;
            let ghost right_view = right@;
            let expr = if is_exp {
                let (core, level) = left.non_neg();
                proof {
                    lemma_negated_depth(
                        ExpressionView::Binary {
                            op,
                            left: Box::new(core@),
                            right: Box::new(right@),
                        },
                        level as nat,
                    );
                }
                Expression::Binary { op, left: Box::new(core), right: Box::new(right) }.negate(
                    level,
                )
            } else {
                Expression::Binary { op, left: Box::new(left), right: Box::new(right) }
            };
            assert(expr@ == folded(op, left_view, right_view, is_exp));
            assert(negation_depth(expr@) <= usize::MAX);
            self.expressions.insert(ind, expr);
            proof {
                let after = self.expressions@;
                assert(after.len() == before.len() - 1);
                assert forall|i: int| 0 <= i < after.len() implies negation_depth(
                    #[trigger] after[i]@,
                ) <= usize::MAX by {
                    if i < ind {
                        assert(after[i] == before[i]);
                    } else if i > ind {
                        assert(after[i] == before[i + 1]);
                    }
                }
                assert(self.operands() =~= fold_at(
                    expr_views(before),
                    old(self).operators@,
                    ind as int,
                    is_exp,
                ));
            }
        }
    }
}


/// The first operator of a tier is the one before which no operator of the
/// tier stands.
pub proof fn lemma_first_of_tier(
    operators: Seq<Operator>,
    tier: OperatorPrecedence,
    from: int,
    k: int,
)
    requires
        0 <= from <= k <= operators.len(),
        forall|q: int| from <= q < k ==> (#[trigger] operators[q]).tier() != tier,
        k < operators.len() ==> operators[k].tier() == tier,
    ensures
        first_of_tier(operators, tier, from) == k,
    decreases k - from,
{
    if from < k {
        lemma_first_of_tier(operators, tier, from + 1, k);
    }
}

/// The positions in `instances`, each moved right by its rank from `done`
/// on, are the operators of the tier.
pub open spec fn marks_tier(
    operators: Seq<Operator>,
    tier: OperatorPrecedence,
    instances: Seq<usize>,
    done: int,
) -> bool {
    &&& forall|t: int|
        done <= t < instances.len() ==> {
            &&& (#[trigger] instances[t]) + t - done < operators.len()
            &&& operators[instances[t] + t - done].tier() == tier
        }
    &&& forall|q: int|
        0 <= q < operators.len() && (#[trigger] operators[q]).tier() == tier ==> exists|t: int|
            done <= t < instances.len() && (#[trigger] instances[t]) + t - done == q
    &&& forall|t: int, u: int|
        0 <= t <= u < instances.len() ==> (#[trigger] instances[t]) <= (#[trigger] instances[u])
}

/// The first marked position is the first operator of the tier.
pub proof fn lemma_marks_first(
    operators: Seq<Operator>,
    tier: OperatorPrecedence,
    instances: Seq<usize>,
    done: int,
)
    requires
        marks_tier(operators, tier, instances, done),
        0 <= done <= instances.len(),
    ensures
        done < instances.len() ==> first_of_tier(operators, tier, 0) == instances[done],
        done == instances.len() ==> first_of_tier(operators, tier, 0) == operators.len(),
{
    if done < instances.len() {
        let k = instances[done] as int;
        assert(k + done - done == k);
        assert forall|q: int| 0 <= q < k implies (#[trigger] operators[q]).tier() != tier by {
            if operators[q].tier() == tier {
                let t = choose|t: int|
                    done <= t < instances.len() && (#[trigger] instances[t]) + t - done == q;
                assert(instances[done] <= instances[t]);
            }
        }
        lemma_first_of_tier(operators, tier, 0, k);
    } else {
        assert forall|q: int| 0 <= q < operators.len() implies (#[trigger] operators[q]).tier()
            != tier by {
            if operators[q].tier() == tier {
                let t = choose|t: int|
                    done <= t < instances.len() && (#[trigger] instances[t]) + t - done == q;
            }
        }
        lemma_first_of_tier(operators, tier, 0, operators.len() as int);
    }
}

/// After the first marked operator has been removed, the remaining marks
/// are the remaining operators of the tier.
pub proof fn lemma_marks_next(
    operators: Seq<Operator>,
    tier: OperatorPrecedence,
    instances: Seq<usize>,
    done: int,
)
    requires
        marks_tier(operators, tier, instances, done),
        0 <= done < instances.len(),
    ensures
        marks_tier(operators.remove(instances[done] as int), tier, instances, done + 1),
{
    let k = instances[done] as int;
    let rest = operators.remove(k);
    assert(k + done - done == k);
    assert forall|t: int| done + 1 <= t < instances.len() implies {
        &&& (#[trigger] instances[t]) + t - (done + 1) < rest.len()
        &&& rest[instances[t] + t - (done + 1)].tier() == tier
    } by {
        assert(instances[done] <= instances[t]);
        let q = instances[t] + t - done;
        assert(rest[q - 1] == operators[q]);
    }
    assert forall|q: int| 0 <= q < rest.len() && (#[trigger] rest[q]).tier() == tier implies exists|
        t: int,
    |
        done + 1 <= t < instances.len() && (#[trigger] instances[t]) + t - (done + 1) == q by {
        let from = if q < k {
            q
        } else {
            q + 1
        };
        assert(rest[q] == operators[from]);
        let t = choose|t: int|
            done <= t < instances.len() && (#[trigger] instances[t]) + t - done == from;
        assert(instances[done] <= instances[t]);
        assert(t != done);
        assert(instances[t] + t - (done + 1) == q);
    }
}

impl ContextualizedTokens {
    /// Folds every operator of the tier with its operands, from left to
    /// right.
    pub fn reduce_tier(&mut self, prec: OperatorPrecedence)
        requires
            old(self).bounded(),
            old(self).expressions.len() == old(self).operators.len() + 1,
        ensures
            final(self).bounded(),
            final(self).expressions.len() == final(self).operators.len() + 1,
            (final(self).operands(), final(self).operators@) == reduce_tier(
                old(self).operands(),
                old(self).operators@,
                prec,
            ),
    {
        let ghost tier = prec;
        // The position of each operator of the tier, less the number of
        // those before it: where it stands once they are folded.
        let mut instances: Vec<usize> = Vec::new();
        let mut i: usize = 0;
        while i < self.operators.len()
            invariant
                *self == *old(self),
                tier == prec,
                i <= self.operators.len(),
                instances.len() <= i,
                forall|t: int|
                    0 <= t < instances.len() ==> {
                        &&& (#[trigger] instances[t]) + t < i
                        &&& self.operators[instances[t] + t].tier() == tier
                    },
                forall|q: int|
                    0 <= q < i && (#[trigger] self.operators[q]).tier() == tier ==> exists|t: int|
                        0 <= t < instances.len() && (#[trigger] instances[t]) + t == q,
                forall|t: int, u: int|
                    0 <= t <= u < instances.len() ==> (#[trigger] instances[t]) <= (
                    #[trigger] instances[u]),
            decreases self.operators.len() - i,
        {
            if self.operators[i].precedence() == prec {
                let ghost earlier = instances@;
                let count = instances.len();
                if count > 0 {
                    assert(instances[count - 1] + (count - 1) < i);
                }
                instances.push(i - count);
                assert forall|q: int|
                    0 <= q < i + 1 && (#[trigger] self.operators[q]).tier() == tier implies exists|
                    t: int,
                | 0 <= t < instances.len() && (#[trigger] instances[t]) + t == q by {
                    if q < i {
                        let t = choose|t: int|
                            0 <= t < earlier.len() && (#[trigger] earlier[t]) + t == q;
                        assert(instances[t] + t == q);
                    } else {
                        assert(instances[count as int] + count == q);
                    }
                }
                assert forall|t: int, u: int| 0 <= t <= u < instances.len() implies (
                #[trigger] instances[t]) <= (#[trigger] instances[u]) by {
                    if u == count && t < count {
                        assert(earlier[t] <= earlier[count - 1]);
                    }
                }
            } else {
                assert forall|q: int|
                    0 <= q < i + 1 && (#[trigger] self.operators[q]).tier() == tier implies exists|
                    t: int,
                | 0 <= t < instances.len() && (#[trigger] instances[t]) + t == q by {
                    assert(q < i);
                }
            }
            i += 1;
        }
        assert(marks_tier(self.operators@, tier, instances@, 0)) by {
            assert forall|t: int| 0 <= t < instances.len() implies {
                &&& (#[trigger] instances[t]) + t - 0 < self.operators@.len()
                &&& self.operators@[instances[t] + t - 0].tier() == tier
            } by {}
            assert forall|q: int|
                0 <= q < self.operators@.len() && (#[trigger] self.operators@[q]).tier()
                    == tier implies exists|t: int|
                0 <= t < instances.len() && (#[trigger] instances[t]) + t - 0 == q by {
                let t = choose|t: int| 0 <= t < instances.len() && (#[trigger] instances[t]) + t == q;
                assert(instances[t] + t - 0 == q);
            }
        }
        let mut j: usize = 0;
        while j < instances.len()
            invariant
                j <= instances.len(),
                tier == prec,
                self.bounded(),
                self.expressions.len() == self.operators.len() + 1,
                marks_tier(self.operators@, tier, instances@, j as int),
                reduce_tier(self.operands(), self.operators@, tier) == reduce_tier(
                    old(self).operands(),
                    old(self).operators@,
                    tier,
                ),
            decreases instances.len() - j,
        {
            proof {
                lemma_marks_first(self.operators@, tier, instances@, j as int);
                lemma_marks_next(self.operators@, tier, instances@, j as int);
                assert(instances[j as int] + j - j < self.operators.len());
            }
            self.reduce_at(instances[j], prec == OperatorPrecedence::Exp);
            j += 1;
        }
        proof {
            lemma_marks_first(self.operators@, tier, instances@, j as int);
        }
    }

    /// Reduces the lists to one tree: the tiers are folded from the tightest
    /// to the loosest.
    pub fn into_ast(self) -> (r: Result<Expression, ParseError>)
        requires
            self.bounded(),
        ensures
            expr_result_view(r) == reduce(self.operands(), self.operators@),
    {
        let mut lists = self;
        if lists.expressions.len() == 0 || lists.expressions.len() - 1 != lists.operators.len() {
            return Err(ParseError::UnexpectedEOF);
        }
        lists.reduce_tier(OperatorPrecedence::Exp);
        lists.reduce_tier(OperatorPrecedence::MultDiv);
        lists.reduce_tier(OperatorPrecedence::PlusMinus);
        if lists.expressions.len() == 1 && lists.operators.len() == 0 {
            match lists.expressions.pop() {
                Some(tree) => Ok(tree),
                None => Err(ParseError::UnexpectedEOF),
            }
        } else {
            Err(ParseError::UnexpectedEOF)
        }
    }
}


/// Appending an expression appends its value.
pub proof fn lemma_expr_views_push(expressions: Seq<Expression>, e: Expression)
    ensures
        expr_views(expressions.push(e)) == expr_views(expressions).push(e@),
{
    assert(expr_views(expressions.push(e)) =~= expr_views(expressions).push(e@));
}

/// The context that the state of the contextualizer stands for.
pub open spec fn context_of(
    expressions: Seq<Expression>,
    operators: Seq<Operator>,
    negations: usize,
    func: Option<String>,
    last_paren: bool,
    last_op: bool,
) -> Context {
    Context {
        expressions: expr_views(expressions),
        operators,
        negations: negations as nat,
        func: name_view(func),
        last_paren,
        last_op,
    }
}

impl ContextualizedTokens {
    /// Resolves the names in a token sequence, puts in the multiplications
    /// that the text leaves out, and hands each run of negation marks to the
    /// operand behind it.
    pub fn from(variables: &VarMap, arr: &Vec<Token>) -> (r: Result<
        ContextualizedTokens,
        ParseError,
    >)
        ensures
            match r {
                Ok(lists) => {
                    &&& contextualize(variables@, views(arr@)) == Ok::<
                        (Seq<ExpressionView>, Seq<Operator>),
                        ParseErrorView,
                    >((lists.operands(), lists.operators@))
                    &&& lists.bounded()
                    &&& lists.expressions.len() == lists.operators.len() + 1
                },
                Err(e) => contextualize(variables@, views(arr@)) == Err::<
                    (Seq<ExpressionView>, Seq<Operator>),
                    ParseErrorView,
                >(e@),
            },
        decreases arr, 0nat,
    {
        let mut expressions: Vec<Expression> = Vec::new();
        let mut operators: Vec<Operator> = Vec::new();
        let mut negation_stack: usize = 0;
        let mut func: Option<String> = None;
        let mut last_paren = false;
        let mut last_op = false;
        let ghost vars = variables@;
        let ghost tokens = views(arr@);
        assert(expr_views(expressions@) =~= Seq::empty());
        let mut i: usize = 0;
        while i < arr.len()
            invariant
                i <= arr.len(),
                vars == variables@,
                tokens == views(arr@),
                negation_stack <= i,
                forall|k: int|
                    0 <= k < expressions.len() ==> negation_depth(#[trigger] expressions[k]@)
                        <= usize::MAX,
                contextualize_from(
                    vars,
                    tokens,
                    i as int,
                    context_of(
                        expressions@,
                        operators@,
                        negation_stack,
                        func,
                        last_paren,
                        last_op,
                    ),
                ) == contextualize_from(vars, tokens, 0, initial_context()),
            decreases arr.len() - i,
        {
            let token = &arr[i];
            let ghost before = context_of(
                expressions@,
                operators@,
                negation_stack,
                func,
                last_paren,
                last_op,
            );
            assert(tokens[i as int] == token@);
            match token {
                Token::Parentheses(paren) => {
                    proof {
                        lemma_group_view(*paren);
                        assert(decreases_to!(arr => arr[i as int]));
                        assert(decreases_to!(arr[i as int] => arr[i as int]->Parentheses_0));
                    }
                    if expressions.len() != operators.len() {
                        operators.push(Operator::Mult);
                    }
                    let sub = match subtree(paren, variables) {
                        Ok(sub) => sub,
                        Err(e) => {
                            return Err(e);
                        },
                    };
                    let pending = func;
                    func = None;
                    let operand = match pending {
                        Some(name) => Expression::CallExpresion { func: name, arg: Box::new(sub) },
                        None => Expression::Paren(Box::new(sub)),
                    };
                    proof {
                        lemma_negated_depth(operand@, negation_stack as nat);
                    }
                    let operand = operand.negate(negation_stack);
                    proof {
                        lemma_expr_views_push(expressions@, operand);
                    }
                    expressions.push(operand);
                    negation_stack = 0;
                    last_op = false;
                    last_paren = true;
                },
                Token::Number(text) => {
                    if func.is_none() && (last_op || last_paren || expressions.len() == 0) {
                        if expressions.len() != operators.len() {
                            operators.push(Operator::Mult);
                        }
                        let operand = Expression::Number(text.clone());
                        proof {
                            lemma_negated_depth(operand@, negation_stack as nat);
                        }
                        let operand = operand.negate(negation_stack);
                        proof {
                            lemma_expr_views_push(expressions@, operand);
                        }
                        expressions.push(operand);
                        last_op = false;
                        last_paren = false;
                        negation_stack = 0;
                    } else {
                        return Err(ParseError::UnexpectedToken(token.clone()));
                    }
                },
                Token::Negation => {
                    if func.is_none() {
                        negation_stack += 1;
                    } else {
                        return Err(ParseError::UnexpectedToken(token.clone()));
                    }
                },
                Token::Op(op) => {
                    if func.is_none() && !last_op {
                        operators.push(*op);
                        last_op = true;
                        last_paren = false;
                    } else {
                        return Err(ParseError::UnexpectedToken(token.clone()));
                    }
                },
                Token::Var(ident) => {
                    if func.is_none() {
                        match variables.get(ident.as_str()) {
                            None => {
                                return Err(ParseError::UndefinedIdent(ident.clone()));
                            },
                            Some(VariableValue::Constant(num)) => {
                                if expressions.len() != operators.len() {
                                    operators.push(Operator::Mult);
                                }
                                let operand = Expression::Number(num.clone());
                                proof {
                                    lemma_negated_depth(operand@, negation_stack as nat);
                                }
                                let operand = operand.negate(negation_stack);
                                proof {
                                    lemma_expr_views_push(expressions@, operand);
                                }
                                expressions.push(operand);
                                negation_stack = 0;
                                last_op = false;
                                last_paren = true;
                            },
                            Some(VariableValue::Function(_)) => {
                                func = Some(ident.clone());
                            },
                        }
                    } else {
                        return Err(ParseError::UnexpectedToken(token.clone()));
                    }
                },
            }
            proof {
                let after = context_of(
                    expressions@,
                    operators@,
                    negation_stack,
                    func,
                    last_paren,
                    last_op,
                );
                assert(step(vars, before, tokens[i as int]) == Ok::<Context, ParseErrorView>(after));
            }
            i += 1;
        }
        if expressions.len() > 0 && expressions.len() - 1 == operators.len() && func.is_none() {
            Ok(ContextualizedTokens { expressions, operators })
        } else {
            Err(ParseError::UnexpectedEOF)
        }
    }
}

/// The expression tree of a token sequence.
fn subtree(tokens: &Vec<Token>, variables: &VarMap) -> (r: Result<Expression, ParseError>)
    ensures
        expr_result_view(r) == ast_of(variables@, views(tokens@)),
    decreases tokens, 1nat,
{
    match ContextualizedTokens::from(variables, tokens) {
        Ok(lists) => lists.into_ast(),
        Err(e) => Err(e),
    }
}

/// The expression tree of a token sequence, with the names resolved in
/// `variables`.
pub fn ast_gen(tokens: Vec<Token>, variables: &VarMap) -> (r: Result<Expression, ParseError>)
    ensures
        expr_result_view(r) == ast_of(variables@, views(tokens@)),
{
    subtree(&tokens, variables)
}


/// The name of the first call, in the order of evaluation, that does not
/// name a function of the environment. The argument of a call is evaluated
/// before the call itself, and a left operand before the right one.
pub open spec fn first_non_function(e: ExpressionView, vars: Map<Seq<char>, VariableValueView>)
    -> Option<Seq<char>>
    decreases e,
{
    match e {
        ExpressionView::Binary { op, left, right } => match first_non_function(*left, vars) {
            Some(name) => Some(name),
            None => first_non_function(*right, vars),
        },
        ExpressionView::CallExpresion { arg, func } => match first_non_function(*arg, vars) {
            Some(name) => Some(name),
            None => if vars.contains_key(func) && vars[func] is Function {
                None
            } else {
                Some(func)
            },
        },
        ExpressionView::Number(_) => None,
        ExpressionView::Paren(inner) => first_non_function(*inner, vars),
        ExpressionView::Negation(inner) => first_non_function(*inner, vars),
    }
}

impl Expression {
    /// Checks that the tree can be evaluated in the given environment: that
    /// every call in it names a function. Where one does not, the error
    /// names the first such call in the order of evaluation.
    pub fn check_calls(&self, context: &VarMap) -> (r: Result<(), ParseError>)
        ensures
            match first_non_function(self@, context@) {
                None => r is Ok,
                Some(name) => r is Err && r->Err_0@ == ParseErrorView::NonFunction(name),
            },
        decreases self,
    {
        match self {
            Expression::Binary { op, left, right } => {
                match left.check_calls(context) {
                    Ok(()) => right.check_calls(context),
                    Err(e) => Err(e),
                }
            },
            Expression::CallExpresion { arg, func } => {
                match arg.check_calls(context) {
                    Ok(()) => match context.get(func.as_str()) {
                        Some(VariableValue::Function(_)) => Ok(()),
                        _ => Err(ParseError::NonFunction(func.clone())),
                    },
                    Err(e) => Err(e),
                }
            },
            Expression::Number(_) => Ok(()),
            Expression::Paren(inner) => inner.check_calls(context),
            Expression::Negation(inner) => inner.check_calls(context),
        }
    }
}

} // verus!
