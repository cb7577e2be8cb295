//! What can go wrong while a dice expression is evaluated.

use vstd::prelude::*;

verus! {

/// The five ways an evaluation fails.
#[derive(Clone, Copy, Debug, PartialEq, Eq, Structural)]
pub enum ErrorKind {
    /// A dice term is malformed, or the expression is blank.
    Parse,
    /// A count or a number of sides is outside its bounds.
    Range,
    /// A sum left the integer range, or a term drew too often.
    Overflow,
    /// The arithmetic around the dice could not be evaluated.
    Evaluation,
    /// The evaluated number does not fit the integer type.
    ResultRange,
}

/// Why an evaluation failed.
#[derive(Debug, PartialEq, Eq)]
#[allow(inconsistent_fields)]
pub enum RollError {
    /// The text is empty or blank.
    EmptyExpression,
    /// The term does not start with a number of dice; holds what it starts with.
    MissingCount(String),
    /// A token that is no option; holds the token.
    UnknownToken(String),
    /// `d`, `<` or `>` stands at the end of the term; holds that character.
    MissingValue(char),
    /// The token after `d`, `<` or `>` is no usable number; holds the token.
    InvalidValue(String),
    /// The term never says how many sides the dice have.
    MissingSides,
    /// Once the dice terms are taken out, something is left that is no
    /// arithmetic; holds the value text.
    Malformed(String),
    /// The dice have no sides.
    NoSides,
    /// The term rolls no dice.
    NoDice,
    /// The number of dice reaches the limit; holds the number as written.
    TooManyDice { limit: i32, found: String },
    /// The number of sides reaches the limit; holds the sides as written.
    TooManySides { limit: i32, found: String },
    /// A total or a sum does not fit the integer type.
    Overflow,
    /// The term needed more draws than the limit allows.
    TooManyDraws { limit: usize },
    /// The evaluator could not work out the value text; holds the value
    /// text.
    Evaluation(String),
    /// The evaluated number does not fit the integer type.
    ResultRange,
}

/// `RollError` with its texts as sequences of characters.
#[allow(inconsistent_fields)]
pub enum Failure {
    EmptyExpression,
    MissingCount(Seq<char>),
    UnknownToken(Seq<char>),
    MissingValue(char),
    InvalidValue(Seq<char>),
    MissingSides,
    Malformed(Seq<char>),
    NoSides,
    NoDice,
    TooManyDice { limit: int, found: Seq<char> },
    TooManySides { limit: int, found: Seq<char> },
    Overflow,
    TooManyDraws { limit: int },
    Evaluation(Seq<char>),
    ResultRange,
}

impl Failure {
    /// Which of the five ways this is.
    pub open spec fn kind(self) -> ErrorKind {
        match self {
            Failure::EmptyExpression
            | Failure::MissingCount(_)
            | Failure::UnknownToken(_)
            | Failure::MissingValue(_)
            | Failure::InvalidValue(_)
            | Failure::MissingSides
            | Failure::Malformed(_) => ErrorKind::Parse,
            Failure::NoSides
            | Failure::NoDice
            | Failure::TooManyDice { .. }
            | Failure::TooManySides { .. } => ErrorKind::Range,
            Failure::Overflow | Failure::TooManyDraws { .. } => ErrorKind::Overflow,
            Failure::Evaluation(_) => ErrorKind::Evaluation,
            Failure::ResultRange => ErrorKind::ResultRange,
        }
    }
}

impl View for RollError {
    type V = Failure;

    open spec fn view(&self) -> Failure {
        match *self {
            RollError::EmptyExpression => Failure::EmptyExpression,
            RollError::MissingCount(s) => Failure::MissingCount(s@),
            RollError::UnknownToken(s) => Failure::UnknownToken(s@),
            RollError::MissingValue(c) => Failure::MissingValue(c),
            RollError::InvalidValue(s) => Failure::InvalidValue(s@),
            RollError::MissingSides => Failure::MissingSides,
            RollError::Malformed(s) => Failure::Malformed(s@),
            RollError::NoSides => Failure::NoSides,
            RollError::NoDice => Failure::NoDice,
            RollError::TooManyDice { limit, found } => Failure::TooManyDice {
                limit: limit as int,
                found: found@,
            },
            RollError::TooManySides { limit, found } => Failure::TooManySides {
                limit: limit as int,
                found: found@,
            },
            RollError::Overflow => Failure::Overflow,
            RollError::TooManyDraws { limit } => Failure::TooManyDraws { limit: limit as int },
            RollError::Evaluation(s) => Failure::Evaluation(s@),
            RollError::ResultRange => Failure::ResultRange,
        }
    }
}

impl RollError {
    /// Which of the five ways this is.
    pub fn kind(&self) -> (kind: ErrorKind)
        ensures
            kind == self@.kind(),
    {
        match self {
            RollError::EmptyExpression
            | RollError::MissingCount(_)
            | RollError::UnknownToken(_)
            | RollError::MissingValue(_)
            | RollError::InvalidValue(_)
            | RollError::MissingSides
            | RollError::Malformed(_) => ErrorKind::Parse,
            RollError::NoSides
            | RollError::NoDice
            | RollError::TooManyDice { .. }
            | RollError::TooManySides { .. } => ErrorKind::Range,
            RollError::Overflow | RollError::TooManyDraws { .. } => ErrorKind::Overflow,
            RollError::Evaluation(_) => ErrorKind::Evaluation,
            RollError::ResultRange => ErrorKind::ResultRange,
        }
    }
}

} // verus!
