//! The arithmetic around the dice, which an evaluator outside this library
//! works out.

use crate::limits::DiceInt;
use crate::text::{is_arithmetic, is_blank};
use num_traits::cast::ToPrimitive;
use vstd::prelude::*;

verus! {

/// A number that the evaluator arrived at.
#[derive(Debug, PartialEq, Eq)]
pub struct Evaluation {
    /// The number in print.
    pub text: String,
    /// The number cut to an integer, where that fits the dice type.
    pub integer: Option<DiceInt>,
}

/// `Evaluation` as mathematical values.
pub struct EvaluationView {
    pub text: Seq<char>,
    pub integer: Option<int>,
}

impl View for Evaluation {
    type V = EvaluationView;

    open spec fn view(&self) -> EvaluationView {
        EvaluationView {
            text: self.text@,
            integer: match self.integer {
                Some(v) => Some(v as int),
                None => None,
            },
        }
    }
}

/// What the evaluator makes of a text of plain arithmetic: nothing, if it
/// cannot evaluate it, else the number in print and as an integer.
pub uninterp spec fn evaluated(expression: Seq<char>) -> Option<(Seq<char>, Option<int>)>;

/// What an evaluation says, in the form of `evaluated`.
pub open spec fn answer_of(evaluation: Option<Evaluation>) -> Option<(Seq<char>, Option<int>)> {
    match evaluation {
        Some(e) => Some((e@.text, e@.integer)),
        None => None,
    }
}

/// Calls `meval::eval_str`, prints the number it returns with `{}` and
/// converts it with `ToPrimitive::to_i32` of `num_traits`. The number is a
/// float, which this library does not hold: the print and the integer are
/// what it reads of it.
///
/// Claimed: on plain arithmetic the three together are a function of the
/// text, here called `evaluated`. Plain arithmetic reaches only the parsing
/// of numbers, `+ - * /` and the change of sign, none of which depends on
/// anything but its operands. `eval_str` panics on a text of nothing but
/// space, which is why blank text is kept out.
#[verifier::external_body]
pub(crate) fn evaluate(expression: &str) -> (evaluation: Option<Evaluation>)
    requires
        is_arithmetic(expression@),
        !is_blank(expression@),
    ensures
        answer_of(evaluation) == evaluated(expression@),
{
    match meval::eval_str(expression) {
        Ok(number) => Some(Evaluation { text: format!("{}", number), integer: number.to_i32() }),
        Err(_) => None,
    }
}

} // verus!
