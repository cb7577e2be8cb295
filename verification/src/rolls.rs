//! Rolling dice expressions.
//!
//! An expression is arithmetic with dice terms in it, such as
//! `(3d3*2)+1d10`. Every term is rolled once. The expression is then written
//! out twice: with each term replaced by its dice as shown, and with each
//! term replaced by the sum of its dice. The second text is evaluated as
//! arithmetic.

pub mod dice;
pub mod laws;
pub mod options;
pub mod rescan;
pub mod scan;

use crate::error::{Failure, RollError};
use crate::evaluate::{answer_of, evaluate, evaluated, Evaluation};
use crate::limits::{DiceInt, Limits};
use crate::rolls::dice::{
    drew_on, fresh_draws, lemma_draws_after, lemma_draws_go_on, lemma_rolled_reads_its_draws,
    rolled, shown, starts_with, summed, DiceRoll, DiceRollView,
};
use crate::rolls::options::{parse_chars, parsed};
use crate::rolls::scan::{find_terms, in_order, replace_spans, replaced, terms, texts_of};
use crate::source::{DrawSource, RandomSource};
use crate::text::{
    arithmetic, blank, chars_of, decimal, integer_text, is_arithmetic, is_blank, is_integer_text,
    push_decimal, push_range, spans_of, string_of,
};
use vstd::prelude::*;

verus! {

/// The rolls as mathematical values.
pub open spec fn views_of(rolls: Seq<DiceRoll>) -> Seq<DiceRollView> {
    rolls.map_values(|roll: DiceRoll| roll@)
}

/// How the rolling of the terms of an expression ended, and how many draws
/// it made.
pub struct TermsRun {
    pub outcome: Result<Seq<DiceRollView>, Failure>,
    pub used: nat,
}

/// The rolling of the terms from the `k`-th on, in the order of the text,
/// when `at` draws have been made and `done` holds the terms rolled before.
/// Each term is read and then rolled with the draws that follow those of the
/// term before it. The first term that cannot be read or rolled ends it all.
pub open spec fn terms_rolled(
    s: Seq<char>,
    spans: Seq<(int, int)>,
    limits: Limits,
    draws: Seq<nat>,
    k: int,
    at: nat,
    done: Seq<DiceRollView>,
) -> TermsRun
    decreases spans.len() - k,
{
    if k < 0 || k >= spans.len() {
        TermsRun { outcome: Ok(done), used: at }
    } else {
        match parsed(s.subrange(spans[k].0, spans[k].1), limits) {
            Err(failure) => TermsRun { outcome: Err(failure), used: at },
            Ok(options) => {
                let run = rolled(options, limits.max_draws as nat, draws.skip(at as int));
                match run.outcome {
                    Err(failure) => TermsRun { outcome: Err(failure), used: at + run.used },
                    Ok(rolls) => terms_rolled(
                        s,
                        spans,
                        limits,
                        draws,
                        k + 1,
                        at + run.used,
                        done.push(DiceRollView { options, rolls }),
                    ),
                }
            },
        }
    }
}

/// The sum of each roll, or `None` if one of them leaves the integer type.
pub open spec fn sums_of(rolls: Seq<DiceRollView>) -> Option<Seq<int>>
    decreases rolls.len(),
{
    if rolls.len() == 0 {
        Some(Seq::empty())
    } else {
        match sums_of(rolls.drop_last()) {
            None => None,
            Some(sums) => match summed(rolls.last().options, rolls.last().rolls) {
                None => None,
                Some(sum) => Some(sums.push(sum)),
            },
        }
    }
}

/// A rolled expression.
pub struct Rolled {
    /// The rolled terms, in the order of the text.
    pub rolls: Seq<DiceRollView>,
    /// The text with each term replaced by its dice as shown.
    pub dice: Seq<char>,
    /// The text with each term replaced by the sum of its dice.
    pub vals: Seq<char>,
}

/// How the rolling of an expression ended, and how many draws it made.
pub struct ExpressionRun {
    pub outcome: Result<Rolled, Failure>,
    pub used: nat,
}

/// The rolling of the expression `text` whose draws, in order, are `draws`.
///
/// The `k`-th roll belongs to the `k`-th dice term of the text. Both texts
/// are made from the same rolls.
pub open spec fn expression_rolled(text: Seq<char>, limits: Limits, draws: Seq<nat>) -> ExpressionRun {
    let spans = terms(text);
    let run = terms_rolled(text, spans, limits, draws, 0, 0, Seq::empty());
    match run.outcome {
        Err(failure) => ExpressionRun { outcome: Err(failure), used: run.used },
        Ok(rolls) => ExpressionRun { outcome: written_out(text, spans, rolls), used: run.used },
    }
}

/// Whether what came back is the value `asked`, seen as mathematical values.
pub open spec fn terms_agree(got: Result<Vec<DiceRoll>, RollError>, asked: Result<Seq<DiceRollView>, Failure>) -> bool {
    match got {
        Ok(rolls) => asked == Ok::<Seq<DiceRollView>, Failure>(views_of(rolls@)),
        Err(error) => asked == Err::<Seq<DiceRollView>, Failure>(error@),
    }
}

/// Whether what came back is the value `asked`, seen as mathematical values.
pub open spec fn expression_agrees(
    got: Result<(Vec<DiceRoll>, String, String), RollError>,
    asked: Result<Rolled, Failure>,
) -> bool {
    match got {
        Ok((rolls, dice, vals)) => asked == Ok::<Rolled, Failure>(
            Rolled { rolls: views_of(rolls@), dice: dice@, vals: vals@ },
        ),
        Err(error) => asked == Err::<Rolled, Failure>(error@),
    }
}

/// Reads and rolls every term.
fn roll_terms<S: DrawSource>(
    v: &Vec<char>,
    spans: &Vec<(usize, usize)>,
    limits: &Limits,
    source: &mut S,
) -> (result: Result<Vec<DiceRoll>, RollError>)
    requires
        in_order(spans_of(spans@), v.len() as int),
    ensures
        drew_on(old(source), final(source)),
        terms_rolled(
            v@,
            spans_of(spans@),
            *limits,
            fresh_draws(old(source), final(source)),
            0,
            0,
            Seq::empty(),
        ).used == fresh_draws(old(source), final(source)).len(),
        terms_agree(
            result,
            terms_rolled(
                v@,
                spans_of(spans@),
                *limits,
                fresh_draws(old(source), final(source)),
                0,
                0,
                Seq::empty(),
            ).outcome,
        ),
        result matches Ok(rolls) ==> rolls.len() == spans.len(),
{
    let ghost s = v@;
    let ghost sp = spans_of(spans@);
    let ghost base = source.drawn();
    let ghost mut made: Seq<nat> = Seq::empty();
    let mut rolls: Vec<DiceRoll> = Vec::new();
    let mut k: usize = 0;
    proof {
        assert(base + made =~= base);
        assert(views_of(rolls@) =~= Seq::<DiceRollView>::empty());
    }
    while k < spans.len()
        invariant
            k <= spans.len(),
            s == v@,
            sp == spans_of(spans@),
            in_order(sp, v.len() as int),
            rolls.len() == k,
            base == old(source).drawn(),
            source.drawn() == base + made,
            forall|d: Seq<nat>| #[trigger]
                starts_with(d, made) ==> terms_rolled(s, sp, *limits, d, 0, 0, Seq::empty())
                    == terms_rolled(
                    s,
                    sp,
                    *limits,
                    d,
                    k as int,
                    made.len(),
                    views_of(rolls@),
                ),
        decreases spans.len() - k,
    {
        let (a, b) = spans[k];
        assert(sp[k as int] == (a as int, b as int));
        let mut body: Vec<char> = Vec::new();
        push_range(&mut body, v, a, b);
        assert(body@ =~= s.subrange(sp[k as int].0, sp[k as int].1));
        let options = match parse_chars(&body, limits) {
            Ok(options) => options,
            Err(error) => {
                proof {
                    lemma_draws_after(base, made);
                }
                return Err(error);
            },
        };
        let ghost view = options@;
        let ghost earlier = made;
        let ghost before = source.drawn();
        let rolled_term = DiceRoll::roll(options, limits, source);
        let ghost part = source.drawn().skip(before.len() as int);
        proof {
            made = earlier + part;
            assert(source.drawn() =~= before + part);
            assert(source.drawn() =~= base + made);
            lemma_draws_after(base, made);
            assert forall|d: Seq<nat>| #[trigger] starts_with(d, made) implies starts_with(
                d,
                earlier,
            ) && rolled(view, limits.max_draws as nat, d.skip(earlier.len() as int)) == rolled(
                view,
                limits.max_draws as nat,
                part,
            ) by {
                lemma_draws_go_on(d, earlier, part);
                lemma_rolled_reads_its_draws(
                    view,
                    limits.max_draws as nat,
                    part,
                    d.skip(earlier.len() as int),
                );
            }
        }
        let roll = match rolled_term {
            Ok(roll) => roll,
            Err(error) => {
                return Err(error);
            },
        };
        let ghost done = views_of(rolls@);
        rolls.push(roll);
        proof {
            assert(views_of(rolls@) =~= done.push(DiceRollView { options: view, rolls: roll@.rolls }));
        }
        k += 1;
    }
    proof {
        lemma_draws_after(base, made);
    }
    Ok(rolls)
}

/// Once a sum has left the integer type, more rolls do not bring it back.
proof fn lemma_sums_stay_lost(rolls: Seq<DiceRollView>, k: int)
    requires
        0 <= k <= rolls.len(),
        sums_of(rolls.take(k)) is None,
    ensures
        sums_of(rolls) is None,
    decreases rolls.len() - k,
{
    if k == rolls.len() {
        assert(rolls.take(k) =~= rolls);
    } else {
        assert(rolls.take(k + 1).drop_last() =~= rolls.take(k));
        lemma_sums_stay_lost(rolls, k + 1);
    }
}

/// The sums as integers.
pub open spec fn sums_view(sums: Seq<DiceInt>) -> Seq<int> {
    sums.map_values(|sum: DiceInt| sum as int)
}

/// The sum of each roll.
fn sum_rolls(rolls: &Vec<DiceRoll>) -> (result: Option<Vec<DiceInt>>)
    ensures
        match result {
            Some(sums) => sums_of(views_of(rolls@)) == Some(sums_view(sums@)) && sums.len()
                == rolls.len(),
            None => sums_of(views_of(rolls@)) is None,
        },
{
    let ghost all = views_of(rolls@);
    let mut sums: Vec<DiceInt> = Vec::new();
    let mut k: usize = 0;
    proof {
        assert(all.take(0) =~= Seq::<DiceRollView>::empty());
        assert(sums_view(sums@) =~= Seq::<int>::empty());
    }
    while k < rolls.len()
        invariant
            k <= rolls.len(),
            all == views_of(rolls@),
            sums.len() == k,
            sums_of(all.take(k as int)) == Some(sums_view(sums@)),
        decreases rolls.len() - k,
    {
        proof {
            assert(all.take(k + 1).drop_last() =~= all.take(k as int));
            assert(all.take(k + 1).last() == rolls@[k as int]@);
        }
        match rolls[k].val() {
            Ok(sum) => {
                let ghost before = sums_view(sums@);
                sums.push(sum);
                assert(sums_view(sums@) =~= before.push(sum as int));
            },
            Err(_) => {
                proof {
                    lemma_sums_stay_lost(all, k + 1);
                }
                return None;
            },
        }
        k += 1;
    }
    assert(all.take(k as int) =~= all);
    Some(sums)
}

/// Each roll as shown.
fn show_rolls(rolls: &Vec<DiceRoll>) -> (fills: Vec<Vec<char>>)
    ensures
        fills.len() == rolls.len(),
        texts_of(fills@) == views_of(rolls@).map_values(|roll: DiceRollView| shown(roll)),
{
    let mut fills: Vec<Vec<char>> = Vec::new();
    let mut k: usize = 0;
    while k < rolls.len()
        invariant
            k <= rolls.len(),
            fills.len() == k,
            forall|j: int| 0 <= j < k ==> (#[trigger] fills@[j])@ == shown(rolls@[j]@),
        decreases rolls.len() - k,
    {
        let mut fill: Vec<char> = Vec::new();
        rolls[k].show_into(&mut fill);
        assert(fill@ =~= shown(rolls@[k as int]@));
        fills.push(fill);
        k += 1;
    }
    assert(texts_of(fills@) =~= views_of(rolls@).map_values(|roll: DiceRollView| shown(roll)));
    fills
}

/// Each sum in decimal.
fn show_sums(sums: &Vec<DiceInt>) -> (fills: Vec<Vec<char>>)
    ensures
        fills.len() == sums.len(),
        texts_of(fills@) == sums_view(sums@).map_values(|sum: int| decimal(sum)),
{
    let mut fills: Vec<Vec<char>> = Vec::new();
    let mut k: usize = 0;
    while k < sums.len()
        invariant
            k <= sums.len(),
            fills.len() == k,
            forall|j: int| 0 <= j < k ==> (#[trigger] fills@[j])@ == decimal(sums@[j] as int),
        decreases sums.len() - k,
    {
        let mut fill: Vec<char> = Vec::new();
        push_decimal(&mut fill, sums[k]);
        assert(fill@ =~= decimal(sums@[k as int] as int));
        fills.push(fill);
        k += 1;
    }
    assert(texts_of(fills@) =~= sums_view(sums@).map_values(|sum: int| decimal(sum)));
    fills
}

/// The two texts of an expression whose terms have been rolled.
pub open spec fn written_out(s: Seq<char>, spans: Seq<(int, int)>, rolls: Seq<DiceRollView>) -> Result<
    Rolled,
    Failure,
> {
    match sums_of(rolls) {
        None => Err(Failure::Overflow),
        Some(sums) => Ok(
            Rolled {
                rolls,
                dice: replaced(s, spans, rolls.map_values(|roll: DiceRollView| shown(roll))),
                vals: replaced(s, spans, sums.map_values(|sum: int| decimal(sum))),
            },
        ),
    }
}

/// Writes the expression out twice: with the dice of each term as shown,
/// and with the sum of each term.
fn write_out(v: &Vec<char>, spans: &Vec<(usize, usize)>, rolls: Vec<DiceRoll>) -> (result: Result<
    (Vec<DiceRoll>, String, String),
    RollError,
>)
    requires
        in_order(spans_of(spans@), v.len() as int),
        rolls.len() == spans.len(),
    ensures
        expression_agrees(result, written_out(v@, spans_of(spans@), views_of(rolls@))),
{
    let sums = match sum_rolls(&rolls) {
        Some(sums) => sums,
        None => {
            return Err(RollError::Overflow);
        },
    };
    let shown_rolls = show_rolls(&rolls);
    let shown_sums = show_sums(&sums);
    let dice = replace_spans(v, spans, &shown_rolls);
    let vals = replace_spans(v, spans, &shown_sums);
    let dice_text = string_of(&dice, 0, dice.len());
    let vals_text = string_of(&vals, 0, vals.len());
    proof {
        assert(dice@.subrange(0, dice.len() as int) =~= dice@);
        assert(vals@.subrange(0, vals.len() as int) =~= vals@);
    }
    Ok((rolls, dice_text, vals_text))
}

/// Rolls every dice term of `msg` once and writes the expression out twice:
/// with the dice of each term as shown, and with the sum of each term.
///
/// What is returned is what `expression_rolled` gives for the draws that
/// this call made, and the call made exactly the draws that it uses.
pub fn roll_expressions_with<S: DrawSource>(msg: &str, limits: &Limits, source: &mut S) -> (result:
    Result<(Vec<DiceRoll>, String, String), RollError>)
    ensures
        drew_on(old(source), final(source)),
        expression_rolled(msg@, *limits, fresh_draws(old(source), final(source))).used
            == fresh_draws(old(source), final(source)).len(),
        expression_agrees(
            result,
            expression_rolled(msg@, *limits, fresh_draws(old(source), final(source))).outcome,
        ),
{
    let v = chars_of(msg);
    let spans = find_terms(&v);
    match roll_terms(&v, &spans, limits, source) {
        Ok(rolls) => write_out(&v, &spans, rolls),
        Err(error) => Err(error),
    }
}

/// Rolls every dice term of `msg` under the standard limits.
pub fn roll_expressions<S: DrawSource>(msg: &str, source: &mut S) -> (result: Result<
    (Vec<DiceRoll>, String, String),
    RollError,
>)
    ensures
        drew_on(old(source), final(source)),
        expression_rolled(msg@, Limits::standard(), fresh_draws(old(source), final(source))).used
            == fresh_draws(old(source), final(source)).len(),
        expression_agrees(
            result,
            expression_rolled(
                msg@,
                Limits::standard(),
                fresh_draws(old(source), final(source)),
            ).outcome,
        ),
{
    roll_expressions_with(msg, &Limits::standard(), source)
}

// ---------------------------------------------------------------------
// The answer
// ---------------------------------------------------------------------
/// One plain die and nothing else: a single term of one die that neither
/// explodes nor has bounds, in a text whose value text is a bare integer.
pub open spec fn is_single_simple(rolls: Seq<DiceRollView>, vals: Seq<char>) -> bool {
    &&& rolls.len() == 1
    &&& rolls[0].options.explode is None
    &&& rolls[0].options.min is None
    &&& rolls[0].options.max is None
    &&& rolls[0].options.count == 1
    &&& is_integer_text(vals)
}

/// The answer for one plain die: its value between `**`.
pub open spec fn simple_text(vals: Seq<char>) -> Seq<char> {
    seq!['*', '*'] + vals + seq!['*', '*']
}

/// The answer that an evaluation gives: the dice as shown, ` => ` and the
/// number between `**`. Without an evaluation there is no answer.
pub open spec fn evaluation_text(
    dice: Seq<char>,
    vals: Seq<char>,
    answer: Option<(Seq<char>, Option<int>)>,
) -> Result<Seq<char>, Failure> {
    match answer {
        None => Err(Failure::Evaluation(vals)),
        Some((number, _)) => Ok(
            dice + seq![' ', '=', '>', ' ', '*', '*'] + number + seq!['*', '*'],
        ),
    }
}

/// The integer that an evaluation gives. Without an evaluation there is
/// none, and none either if the number does not fit the integer type.
pub open spec fn evaluation_integer(vals: Seq<char>, answer: Option<(Seq<char>, Option<int>)>) -> Result<
    int,
    Failure,
> {
    match answer {
        None => Err(Failure::Evaluation(vals)),
        Some((_, None)) => Err(Failure::ResultRange),
        Some((_, Some(integer))) => Ok(integer),
    }
}

/// Why a value text is not handed to the evaluator, if it is not: it is
/// blank, or it holds more than plain arithmetic.
pub open spec fn refused(vals: Seq<char>) -> Option<Failure> {
    if is_blank(vals) {
        Some(Failure::EmptyExpression)
    } else if !is_arithmetic(vals) {
        Some(Failure::Malformed(vals))
    } else {
        None
    }
}

/// The answer to a rolled expression as text.
pub open spec fn roll_text(rolled: Rolled) -> Result<Seq<char>, Failure> {
    if is_single_simple(rolled.rolls, rolled.vals) {
        Ok(simple_text(rolled.vals))
    } else {
        match refused(rolled.vals) {
            Some(failure) => Err(failure),
            None => evaluation_text(rolled.dice, rolled.vals, evaluated(rolled.vals)),
        }
    }
}

/// The answer to a rolled expression as an integer.
pub open spec fn roll_value(rolled: Rolled) -> Result<int, Failure> {
    match refused(rolled.vals) {
        Some(failure) => Err(failure),
        None => evaluation_integer(rolled.vals, evaluated(rolled.vals)),
    }
}

/// The answer, as text, to the expression `text` whose draws are `draws`.
pub open spec fn expression_text(text: Seq<char>, limits: Limits, draws: Seq<nat>) -> Result<
    Seq<char>,
    Failure,
> {
    match expression_rolled(text, limits, draws).outcome {
        Err(failure) => Err(failure),
        Ok(rolled) => roll_text(rolled),
    }
}

/// The answer, as an integer, to the expression `text` whose draws are
/// `draws`.
pub open spec fn expression_value(text: Seq<char>, limits: Limits, draws: Seq<nat>) -> Result<
    int,
    Failure,
> {
    match expression_rolled(text, limits, draws).outcome {
        Err(failure) => Err(failure),
        Ok(rolled) => roll_value(rolled),
    }
}

/// Whether what came back is the value `asked`, seen as mathematical values.
pub open spec fn text_agrees(got: Result<String, RollError>, asked: Result<Seq<char>, Failure>) -> bool {
    match got {
        Ok(text) => asked == Ok::<Seq<char>, Failure>(text@),
        Err(error) => asked == Err::<Seq<char>, Failure>(error@),
    }
}

/// Whether what came back is the value `asked`, seen as mathematical values.
pub open spec fn value_agrees(got: Result<DiceInt, RollError>, asked: Result<int, Failure>) -> bool {
    match got {
        Ok(value) => asked == Ok::<int, Failure>(value as int),
        Err(error) => asked == Err::<int, Failure>(error@),
    }
}

/// Whether the rolls and the value text are those of one plain die.
pub fn is_single_simple_roll(rolls: &Vec<DiceRoll>, vals: &str) -> (simple: bool)
    ensures
        simple == is_single_simple(views_of(rolls@), vals@),
{
    if rolls.len() != 1 {
        return false;
    }
    let options = &rolls[0].options;
    assert(views_of(rolls@)[0] == rolls@[0]@);
    if options.explode.is_some() || options.min.is_some() || options.max.is_some()
        || options.number_of_dice != 1 {
        return false;
    }
    let v = chars_of(vals);
    integer_text(&v)
}

/// The answer for one plain die.
pub fn text_of_single_roll(vals: &str) -> (text: String)
    ensures
        text@ == simple_text(vals@),
{
    let v = chars_of(vals);
    let mut out: Vec<char> = Vec::new();
    out.push('*');
    out.push('*');
    push_range(&mut out, &v, 0, v.len());
    out.push('*');
    out.push('*');
    proof {
        assert(v@.subrange(0, v.len() as int) =~= v@);
        assert(out@ =~= simple_text(vals@));
        assert(out@.subrange(0, out.len() as int) =~= out@);
    }
    string_of(&out, 0, out.len())
}

/// The answer that an evaluation gives, as text.
pub fn text_of_evaluation(dice: &str, vals: String, evaluation: Option<Evaluation>) -> (result:
    Result<String, RollError>)
    ensures
        text_agrees(result, evaluation_text(dice@, vals@, answer_of(evaluation))),
{
    match evaluation {
        None => Err(RollError::Evaluation(vals)),
        Some(e) => {
            let shown_dice = chars_of(dice);
            let number = chars_of(e.text.as_str());
            let mut out: Vec<char> = Vec::new();
            push_range(&mut out, &shown_dice, 0, shown_dice.len());
            out.push(' ');
            out.push('=');
            out.push('>');
            out.push(' ');
            out.push('*');
            out.push('*');
            push_range(&mut out, &number, 0, number.len());
            out.push('*');
            out.push('*');
            proof {
                assert(shown_dice@.subrange(0, shown_dice.len() as int) =~= shown_dice@);
                assert(number@.subrange(0, number.len() as int) =~= number@);
                assert(out@ =~= dice@ + seq![' ', '=', '>', ' ', '*', '*'] + e@.text + seq![
                    '*',
                    '*',
                ]);
                assert(out@.subrange(0, out.len() as int) =~= out@);
            }
            Ok(string_of(&out, 0, out.len()))
        },
    }
}

/// The answer that an evaluation gives, as an integer.
pub fn integer_of_evaluation(vals: String, evaluation: Option<Evaluation>) -> (result: Result<
    DiceInt,
    RollError,
>)
    ensures
        value_agrees(result, evaluation_integer(vals@, answer_of(evaluation))),
{
    match evaluation {
        None => Err(RollError::Evaluation(vals)),
        Some(e) => match e.integer {
            None => Err(RollError::ResultRange),
            Some(integer) => Ok(integer),
        },
    }
}

/// Has the evaluator work out a value text, unless the text is blank or
/// holds more than plain arithmetic.
pub fn evaluate_vals(vals: &str) -> (result: Result<Option<Evaluation>, RollError>)
    ensures
        match result {
            Ok(evaluation) => refused(vals@) is None && answer_of(evaluation) == evaluated(vals@),
            Err(error) => refused(vals@) == Some(error@),
        },
{
    let v = chars_of(vals);
    if blank(&v) {
        return Err(RollError::EmptyExpression);
    }
    if !arithmetic(&v) {
        assert(v@.subrange(0, v.len() as int) =~= v@);
        return Err(RollError::Malformed(string_of(&v, 0, v.len())));
    }
    Ok(evaluate(vals))
}

/// Rolls the expression `msg` and answers with a text: for one plain die
/// its value between `**`, else the dice as shown, ` => ` and the evaluated
/// number between `**`.
pub fn roll_expression_with<S: DrawSource>(msg: &str, limits: &Limits, source: &mut S) -> (result:
    Result<String, RollError>)
    ensures
        drew_on(old(source), final(source)),
        expression_rolled(msg@, *limits, fresh_draws(old(source), final(source))).used
            == fresh_draws(old(source), final(source)).len(),
        text_agrees(
            result,
            expression_text(msg@, *limits, fresh_draws(old(source), final(source))),
        ),
{
    let (rolls, dice, vals) = match roll_expressions_with(msg, limits, source) {
        Ok(rolled) => rolled,
        Err(error) => {
            return Err(error);
        },
    };
    if is_single_simple_roll(&rolls, vals.as_str()) {
        return Ok(text_of_single_roll(vals.as_str()));
    }
    match evaluate_vals(vals.as_str()) {
        Err(error) => Err(error),
        Ok(evaluation) => text_of_evaluation(dice.as_str(), vals, evaluation),
    }
}

/// Rolls the expression `msg` and answers with the integer that it
/// evaluates to.
pub fn roll_expression_value_with<S: DrawSource>(msg: &str, limits: &Limits, source: &mut S) -> (result:
    Result<DiceInt, RollError>)
    ensures
        drew_on(old(source), final(source)),
        expression_rolled(msg@, *limits, fresh_draws(old(source), final(source))).used
            == fresh_draws(old(source), final(source)).len(),
        value_agrees(
            result,
            expression_value(msg@, *limits, fresh_draws(old(source), final(source))),
        ),
{
    let (rolls, dice, vals) = match roll_expressions_with(msg, limits, source) {
        Ok(rolled) => rolled,
        Err(error) => {
            return Err(error);
        },
    };
    match evaluate_vals(vals.as_str()) {
        Err(error) => Err(error),
        Ok(evaluation) => integer_of_evaluation(vals, evaluation),
    }
}

/// Rolls the expression `msg` with fresh random dice under the standard
/// limits, and answers with the integer that it evaluates to.
///
/// Whatever the dice show, the answer is the one that `expression_value`
/// gives for some list of draws.
pub fn roll_expression_value(msg: &str) -> (result: Result<DiceInt, RollError>)
    ensures
        exists|draws: Seq<nat>|
            value_agrees(result, #[trigger] expression_value(msg@, Limits::standard(), draws)),
{
    let mut source = RandomSource::from_entropy();
    let result = roll_expression_value_with(msg, &Limits::standard(), &mut source);
    proof {
        let draws = source.drawn();
        assert(draws.skip(0) =~= draws);
        assert(value_agrees(result, expression_value(msg@, Limits::standard(), draws)));
    }
    result
}

/// Rolls the expression `msg` with fresh random dice under the standard
/// limits, and answers with a text.
///
/// Whatever the dice show, the answer is the one that `expression_text`
/// gives for some list of draws.
pub fn roll_expression(msg: &str) -> (result: Result<String, RollError>)
    ensures
        exists|draws: Seq<nat>|
            text_agrees(result, #[trigger] expression_text(msg@, Limits::standard(), draws)),
{
    let mut source = RandomSource::from_entropy();
    let result = roll_expression_with(msg, &Limits::standard(), &mut source);
    proof {
        let draws = source.drawn();
        assert(draws.skip(0) =~= draws);
        assert(text_agrees(result, expression_text(msg@, Limits::standard(), draws)));
    }
    result
}

} // verus!
