//! Binary operators and their precedence tiers.

use vstd::prelude::*;

verus! {

/// A precedence tier. Tiers are totally ordered: `PlusMinus` binds loosest,
/// `Exp` binds tightest.
#[derive(Clone, Copy, Debug, PartialEq, Eq, PartialOrd, Ord, Structural)]
pub enum OperatorPrecedence {
    PlusMinus,
    MultDiv,
    Exp,
}

impl OperatorPrecedence {
    /// The rank of the tier in the total order, loosest first.
    pub open spec fn rank(self) -> nat {
        match self {
            OperatorPrecedence::PlusMinus => 0,
            OperatorPrecedence::MultDiv => 1,
            OperatorPrecedence::Exp => 2,
        }
    }

    /// The rank of the tier as a machine integer.
    pub fn level(&self) -> (r: u8)
        ensures
            r == self.rank(),
    {
        match self {
            OperatorPrecedence::PlusMinus => 0,
            OperatorPrecedence::MultDiv => 1,
            OperatorPrecedence::Exp => 2,
        }
    }
}

/// A binary operator.
#[derive(Clone, Copy, Debug, PartialEq, Eq, Structural)]
pub enum Operator {
    Exp,
    Mult,
    Div,
    Plus,
    Minus,
}

/// The operator that a character denotes, if any.
pub open spec fn operator_of(c: char) -> Option<Operator> {
    if c == '^' {
        Some(Operator::Exp)
    } else if c == '*' {
        Some(Operator::Mult)
    } else if c == '/' {
        Some(Operator::Div)
    } else if c == '+' {
        Some(Operator::Plus)
    } else if c == '-' {
        Some(Operator::Minus)
    } else {
        None
    }
}

impl Operator {
    /// The tier of the operator.
    pub open spec fn tier(self) -> OperatorPrecedence {
        match self {
            Operator::Exp => OperatorPrecedence::Exp,
            Operator::Mult | Operator::Div => OperatorPrecedence::MultDiv,
            Operator::Plus | Operator::Minus => OperatorPrecedence::PlusMinus,
        }
    }

    /// The character that denotes the operator.
    pub open spec fn symbol(self) -> char {
        match self {
            Operator::Exp => '^',
            Operator::Mult => '*',
            Operator::Div => '/',
            Operator::Plus => '+',
            Operator::Minus => '-',
        }
    }

    /// The tier of the operator.
    pub fn precedence(&self) -> (r: OperatorPrecedence)
        ensures
            r == self.tier(),
    {
        match self {
            Operator::Exp => OperatorPrecedence::Exp,
            Operator::Mult | Operator::Div => OperatorPrecedence::MultDiv,
            Operator::Plus | Operator::Minus => OperatorPrecedence::PlusMinus,
        }
    }

    /// The operator that the character denotes, if any.
    pub fn from_char(c: char) -> (r: Option<Operator>)
        ensures
            r == operator_of(c),
    {
        match c {
            '^' => Some(Operator::Exp),
            '*' => Some(Operator::Mult),
            '/' => Some(Operator::Div),
            '+' => Some(Operator::Plus),
            '-' => Some(Operator::Minus),
            _ => None,
        }
    }

    /// The character that denotes the operator.
    pub fn get_char(&self) -> (r: char)
        ensures
            r == self.symbol(),
    {
        match self {
            Operator::Exp => '^',
            Operator::Mult => '*',
            Operator::Div => '/',
            Operator::Plus => '+',
            Operator::Minus => '-',
        }
    }

    /// Whether the character denotes an operator.
    pub fn is_operator(c: char) -> (r: bool)
        ensures
            r == operator_of(c).is_some(),
    {
        Self::from_char(c).is_some()
    }
}

/// Every operator is denoted by exactly the character that denotes it.
pub proof fn lemma_symbol_round_trip(op: Operator)
    ensures
        operator_of(op.symbol()) == Some(op),
{
}

/// A character that denotes an operator is that operator's symbol.
pub proof fn lemma_operator_of_symbol(c: char)
    requires
        operator_of(c).is_some(),
    ensures
        operator_of(c).unwrap().symbol() == c,
{
}

} // verus!
