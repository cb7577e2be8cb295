//! What holds of every roll.

use crate::error::Failure;
use crate::limits::Limits;
use crate::rolls::dice::{
    after_draw, dice_to_start, lemma_rolled_reads_its_draws, rolled, run_from, shown, summed,
    top_face, total, Progress,
};
use crate::rolls::options::{
    numbered_faces, parsed, plain_run, read_options, token_len, token_text, tokens, tokens_from,
    valued, Draft, Explode, OptionsView, RollOption, Valued,
};
use crate::rolls::scan::{next_term, replaced, replaced_upto, term_starts, terms};
use crate::rolls::{
    expression_rolled, expression_text, expression_value, simple_text, sums_of, terms_rolled,
    DiceRollView, Rolled,
};
use crate::text::{
    decimal, decimal_value, digit_run, integer_value, is_blank, is_digit, is_integer_text,
    is_number, is_space, lemma_decimal_round_trip, lemma_decimal_value_prefix, strip_end,
    strip_start, trimmed,
};
use vstd::prelude::*;

verus! {

/// `wide` is at least as loose a lower bound as `tight`: it is not set, or
/// both are set and `wide` is no higher.
pub open spec fn looser_min(wide: Option<int>, tight: Option<int>) -> bool {
    match wide {
        None => true,
        Some(w) => tight matches Some(t) && w <= t,
    }
}

/// `wide` is at least as loose an upper bound as `tight`: it is not set, or
/// both are set and `wide` is no lower.
pub open spec fn looser_max(wide: Option<int>, tight: Option<int>) -> bool {
    match wide {
        None => true,
        Some(w) => tight matches Some(t) && w >= t,
    }
}

/// Loosening a bound never drops a total that counted before.
pub proof fn lemma_looser_bounds_keep_more(tight: OptionsView, wide: OptionsView, v: int)
    requires
        looser_min(wide.min, tight.min),
        looser_max(wide.max, tight.max),
        tight.keeps(v),
    ensures
        wide.keeps(v),
{
}

/// Without bounds every total counts, so the sum of a roll, where it fits
/// the integer type, is the sum of all its totals.
pub proof fn lemma_unbounded_sum_is_total(options: OptionsView, rolls: Seq<int>)
    requires
        options.min is None,
        options.max is None,
    ensures
        summed(options, rolls) matches Some(sum) ==> sum == total(rolls),
    decreases rolls.len(),
{
    if rolls.len() > 0 {
        lemma_unbounded_sum_is_total(options, rolls.drop_last());
    }
}

/// How many of the totals are `top`.
pub open spec fn count_of(rolls: Seq<int>, top: int) -> nat
    decreases rolls.len(),
{
    if rolls.len() == 0 {
        0
    } else {
        count_of(rolls.drop_last(), top) + if rolls.last() == top {
            1nat
        } else {
            0nat
        }
    }
}

/// The dice that a rolling under way will have finished at its end, not
/// counting the extra dice of such as explode on the way.
pub open spec fn dice_in_progress(progress: Progress) -> int {
    progress.done.len() + progress.pending + if progress.open is Some {
        1int
    } else {
        0int
    }
}

proof fn lemma_run_length(
    options: OptionsView,
    limit: nat,
    draws: Seq<nat>,
    at: nat,
    progress: Progress,
)
    requires
        options.explode != Some(Explode::Compounding) ==> progress.open is None,
    ensures
        run_from(options, limit, draws, at, progress).outcome matches Ok(rolls) ==> {
            &&& options.explode != Some(Explode::Standard) ==> rolls.len() == dice_in_progress(
                progress,
            )
            &&& options.explode == Some(Explode::Standard) ==> rolls.len() - count_of(
                rolls,
                top_face(options.faces),
            ) == progress.done.len() - count_of(progress.done, top_face(options.faces))
                + progress.pending
        },
    decreases limit - at,
{
    if !progress.finished() && at < limit {
        let face = options.faces[draws[at as int] as int];
        match after_draw(options, progress, face) {
            Err(_) => {},
            Ok(next) => {
                lemma_run_length(options, limit, draws, at + 1, next);
                if progress.open is None {
                    assert(next.done.drop_last() =~= progress.done || next.done == progress.done);
                }
            },
        }
    }
}

/// A roll without exploding dice, and one with compounding dice, has one
/// total for each die of the term. A roll with exploding dice has one more
/// for each total that is the highest face, and so at least that many.
pub proof fn lemma_roll_length(options: OptionsView, limit: nat, draws: Seq<nat>)
    requires
        options.count > 0,
        options.faces.len() > 0,
    ensures
        rolled(options, limit, draws).outcome matches Ok(rolls) ==> {
            &&& options.explode != Some(Explode::Standard) ==> rolls.len() == options.count
            &&& options.explode == Some(Explode::Standard) ==> rolls.len() == options.count
                + count_of(rolls, top_face(options.faces))
            &&& rolls.len() >= options.count
        },
{
    lemma_run_length(
        options,
        limit,
        draws,
        0,
        Progress { pending: dice_to_start(options), open: None, done: Seq::empty() },
    );
}

/// The faces that the first `n` draws show, in order.
pub open spec fn faces_drawn(options: OptionsView, draws: Seq<nat>, n: nat) -> Seq<int> {
    Seq::new(n, |i: int| options.faces[draws[i] as int])
}

proof fn lemma_run_shows_faces(
    options: OptionsView,
    limit: nat,
    draws: Seq<nat>,
    at: nat,
    progress: Progress,
)
    requires
        options.explode != Some(Explode::Compounding),
        progress.open is None,
        progress.done == faces_drawn(options, draws, at),
    ensures
        run_from(options, limit, draws, at, progress).outcome matches Ok(rolls) ==> rolls
            == faces_drawn(options, draws, run_from(options, limit, draws, at, progress).used),
    decreases limit - at,
{
    if !progress.finished() && at < limit {
        let face = options.faces[draws[at as int] as int];
        match after_draw(options, progress, face) {
            Err(_) => {},
            Ok(next) => {
                assert(next.done =~= faces_drawn(options, draws, at + 1));
                lemma_run_shows_faces(options, limit, draws, at + 1, next);
            },
        }
    }
}

/// Dice that do not compound show their faces as they fall: the totals of
/// the roll are the faces drawn, one for each draw, in the order drawn.
pub proof fn lemma_totals_are_faces(options: OptionsView, limit: nat, draws: Seq<nat>)
    requires
        options.explode != Some(Explode::Compounding),
    ensures
        rolled(options, limit, draws).outcome matches Ok(rolls) ==> rolls == faces_drawn(
            options,
            draws,
            rolled(options, limit, draws).used,
        ),
{
    if options.faces.len() > 0 {
        assert(Seq::<int>::empty() =~= faces_drawn(options, draws, 0));
        lemma_run_shows_faces(
            options,
            limit,
            draws,
            0,
            Progress { pending: dice_to_start(options), open: None, done: Seq::empty() },
        );
    }
}

/// What a rolling under way has drawn so far, added up.
pub open spec fn drawn_so_far(progress: Progress) -> int {
    total(progress.done) + match progress.open {
        Some(running) => running,
        None => 0,
    }
}

proof fn lemma_run_adds_up(
    options: OptionsView,
    limit: nat,
    draws: Seq<nat>,
    at: nat,
    progress: Progress,
)
    requires
        drawn_so_far(progress) == total(faces_drawn(options, draws, at)),
    ensures
        run_from(options, limit, draws, at, progress).outcome matches Ok(rolls) ==> total(rolls)
            == total(
            faces_drawn(options, draws, run_from(options, limit, draws, at, progress).used),
        ),
    decreases limit - at,
{
    if !progress.finished() && at < limit {
        let face = options.faces[draws[at as int] as int];
        match after_draw(options, progress, face) {
            Err(_) => {},
            Ok(next) => {
                assert(faces_drawn(options, draws, at + 1).drop_last() =~= faces_drawn(
                    options,
                    draws,
                    at,
                ));
                if next.done.len() > progress.done.len() {
                    assert(next.done.drop_last() =~= progress.done);
                }
                lemma_run_adds_up(options, limit, draws, at + 1, next);
            },
        }
    }
}

/// Whatever the dice do on showing their highest face, nothing is lost and
/// nothing is made up: the totals of a roll add up to the faces drawn.
pub proof fn lemma_totals_add_up_to_faces(options: OptionsView, limit: nat, draws: Seq<nat>)
    ensures
        rolled(options, limit, draws).outcome matches Ok(rolls) ==> total(rolls) == total(
            faces_drawn(options, draws, rolled(options, limit, draws).used),
        ),
{
    if options.faces.len() > 0 {
        lemma_run_adds_up(
            options,
            limit,
            draws,
            0,
            Progress { pending: dice_to_start(options), open: None, done: Seq::empty() },
        );
    }
}

proof fn lemma_terms_rolled_moves_on(
    s: Seq<char>,
    spans: Seq<(int, int)>,
    limits: Limits,
    draws: Seq<nat>,
    k: int,
    at: nat,
    done: Seq<DiceRollView>,
)
    ensures
        terms_rolled(s, spans, limits, draws, k, at, done).used >= at,
        0 <= k < spans.len() ==> (parsed(s.subrange(spans[k].0, spans[k].1), limits) matches Ok(
            options,
        ) ==> terms_rolled(s, spans, limits, draws, k, at, done).used >= at + rolled(
            options,
            limits.max_draws as nat,
            draws.skip(at as int),
        ).used),
    decreases spans.len() - k,
{
    if 0 <= k < spans.len() {
        match parsed(s.subrange(spans[k].0, spans[k].1), limits) {
            Err(_) => {},
            Ok(options) => {
                let run = rolled(options, limits.max_draws as nat, draws.skip(at as int));
                match run.outcome {
                    Err(_) => {},
                    Ok(rolls) => {
                        lemma_terms_rolled_moves_on(
                            s,
                            spans,
                            limits,
                            draws,
                            k + 1,
                            at + run.used,
                            done.push(DiceRollView { options, rolls }),
                        );
                    },
                }
            },
        }
    }
}

proof fn lemma_terms_rolled_reads_its_draws(
    s: Seq<char>,
    spans: Seq<(int, int)>,
    limits: Limits,
    draws: Seq<nat>,
    other: Seq<nat>,
    k: int,
    at: nat,
    done: Seq<DiceRollView>,
)
    requires
        terms_rolled(s, spans, limits, draws, k, at, done).used <= draws.len(),
        terms_rolled(s, spans, limits, draws, k, at, done).used <= other.len(),
        forall|i: int|
            at <= i < terms_rolled(s, spans, limits, draws, k, at, done).used ==> draws[i]
                == other[i],
    ensures
        terms_rolled(s, spans, limits, other, k, at, done) == terms_rolled(
            s,
            spans,
            limits,
            draws,
            k,
            at,
            done,
        ),
    decreases spans.len() - k,
{
    if 0 <= k < spans.len() {
        match parsed(s.subrange(spans[k].0, spans[k].1), limits) {
            Err(_) => {},
            Ok(options) => {
                lemma_terms_rolled_moves_on(s, spans, limits, draws, k, at, done);
                let limit = limits.max_draws as nat;
                let run = rolled(options, limit, draws.skip(at as int));
                assert forall|i: int| 0 <= i < run.used implies draws.skip(at as int)[i]
                    == other.skip(at as int)[i] by {
                    assert(draws[at + i] == other[at + i]);
                }
                lemma_rolled_reads_its_draws(
                    options,
                    limit,
                    draws.skip(at as int),
                    other.skip(at as int),
                );
                match run.outcome {
                    Err(_) => {},
                    Ok(rolls) => {
                        lemma_terms_rolled_reads_its_draws(
                            s,
                            spans,
                            limits,
                            draws,
                            other,
                            k + 1,
                            at + run.used,
                            done.push(DiceRollView { options, rolls }),
                        );
                    },
                }
            },
        }
    }
}

/// The same dice give the same answer: when two lists of draws agree on
/// the draws that the rolling of an expression uses, both give the same
/// rolls, the same two texts and the same answer.
pub proof fn lemma_same_draws_same_answer(
    text: Seq<char>,
    limits: Limits,
    draws: Seq<nat>,
    other: Seq<nat>,
)
    requires
        expression_rolled(text, limits, draws).used <= draws.len(),
        expression_rolled(text, limits, draws).used <= other.len(),
        forall|i: int|
            0 <= i < expression_rolled(text, limits, draws).used ==> draws[i] == other[i],
    ensures
        expression_rolled(text, limits, other) == expression_rolled(text, limits, draws),
        expression_text(text, limits, other) == expression_text(text, limits, draws),
        expression_value(text, limits, other) == expression_value(text, limits, draws),
{
    lemma_terms_rolled_reads_its_draws(
        text,
        terms(text),
        limits,
        draws,
        other,
        0,
        0,
        Seq::empty(),
    );
}

proof fn lemma_terms_rolled_length(
    s: Seq<char>,
    spans: Seq<(int, int)>,
    limits: Limits,
    draws: Seq<nat>,
    k: int,
    at: nat,
    done: Seq<DiceRollView>,
)
    requires
        0 <= k <= spans.len(),
    ensures
        terms_rolled(s, spans, limits, draws, k, at, done).outcome matches Ok(rolls) ==> {
            &&& rolls.len() == done.len() + spans.len() - k
            &&& rolls.subrange(0, done.len() as int) == done
            &&& forall|j: int|
                done.len() <= j < rolls.len() ==> parsed(
                    s.subrange(spans[k + j - done.len()].0, spans[k + j - done.len()].1),
                    limits,
                ) == Ok::<OptionsView, Failure>((#[trigger] rolls[j]).options)
        },
    decreases spans.len() - k,
{
    if k < spans.len() {
        match parsed(s.subrange(spans[k].0, spans[k].1), limits) {
            Err(_) => {},
            Ok(options) => {
                let run = rolled(options, limits.max_draws as nat, draws.skip(at as int));
                match run.outcome {
                    Err(_) => {},
                    Ok(rolls) => {
                        let next = done.push(DiceRollView { options, rolls });
                        lemma_terms_rolled_length(
                            s,
                            spans,
                            limits,
                            draws,
                            k + 1,
                            at + run.used,
                            next,
                        );
                        if let Ok(all) = terms_rolled(
                            s,
                            spans,
                            limits,
                            draws,
                            k + 1,
                            at + run.used,
                            next,
                        ).outcome {
                            assert(all.subrange(0, done.len() as int) =~= all.subrange(
                                0,
                                next.len() as int,
                            ).subrange(0, done.len() as int));
                            assert(all[done.len() as int] == all.subrange(0, next.len() as int)[done.len() as int]);
                        }
                    },
                }
            },
        }
    } else {
        assert(done.subrange(0, done.len() as int) =~= done);
    }
}

/// An expression has one roll for each of its dice terms, and each roll
/// was made under the options that its term writes.
pub proof fn lemma_one_roll_for_each_term(text: Seq<char>, limits: Limits, draws: Seq<nat>)
    ensures
        expression_rolled(text, limits, draws).outcome matches Ok(rolled) ==> {
            &&& rolled.rolls.len() == terms(text).len()
            &&& forall|k: int|
                0 <= k < rolled.rolls.len() ==> parsed(
                    text.subrange(terms(text)[k].0, terms(text)[k].1),
                    limits,
                ) == Ok::<OptionsView, Failure>((#[trigger] rolled.rolls[k]).options)
        },
{
    lemma_terms_rolled_length(text, terms(text), limits, draws, 0, 0, Seq::empty());
}

/// An expression that is one dice term and nothing else, rolled without
/// bounds: its value text writes the sum of all its totals, and its other
/// text is the roll as shown.
pub proof fn lemma_dice_only_value(text: Seq<char>, limits: Limits, draws: Seq<nat>)
    requires
        terms(text) =~= seq![(0int, text.len() as int)],
    ensures
        expression_rolled(text, limits, draws).outcome matches Ok(rolled) ==> {
            &&& rolled.rolls.len() == 1
            &&& rolled.dice == shown(rolled.rolls[0])
            &&& (rolled.rolls[0].options.min is None && rolled.rolls[0].options.max is None
                ==> rolled.vals == decimal(total(rolled.rolls[0].rolls)) && integer_value(
                rolled.vals,
            ) == total(rolled.rolls[0].rolls) && is_integer_text(rolled.vals))
        },
{
    let spans = terms(text);
    lemma_terms_rolled_length(text, spans, limits, draws, 0, 0, Seq::empty());
    if let Ok(rolled) = expression_rolled(text, limits, draws).outcome {
        let rolls = rolled.rolls;
        let roll = rolls[0];
        reveal_with_fuel(sums_of, 2);
        reveal_with_fuel(replaced_upto, 2);
        assert(rolls.drop_last() =~= Seq::<DiceRollView>::empty());
        let sum = summed(roll.options, roll.rolls)->0;
        let shown_rolls = rolls.map_values(|roll: DiceRollView| shown(roll));
        let shown_sums = sums_of(rolls)->0.map_values(|sum: int| decimal(sum));
        assert(replaced(text, spans, shown_rolls) =~= shown(roll));
        assert(replaced(text, spans, shown_sums) =~= decimal(sum));
        if roll.options.min is None && roll.options.max is None {
            lemma_unbounded_sum_is_total(roll.options, roll.rolls);
            lemma_decimal_round_trip(sum);
        }
    }
}

/// One plain die, written as the whole expression, is answered with its
/// face between `**`.
pub proof fn lemma_one_plain_die(text: Seq<char>, limits: Limits, draws: Seq<nat>)
    requires
        terms(text) =~= seq![(0int, text.len() as int)],
    ensures
        expression_rolled(text, limits, draws).outcome matches Ok(rolled) ==> {
            let options = rolled.rolls[0].options;
            options.count == 1 && options.explode is None && options.min is None && options.max
                is None ==> expression_text(text, limits, draws) == Ok::<Seq<char>, Failure>(
                simple_text(decimal(total(rolled.rolls[0].rolls))),
            )
        },
{
    lemma_dice_only_value(text, limits, draws);
}

/// A text without dice terms is rolled without a draw and left as it is.
pub proof fn lemma_no_terms_no_change(text: Seq<char>, limits: Limits, draws: Seq<nat>)
    requires
        terms(text).len() == 0,
    ensures
        expression_rolled(text, limits, draws).used == 0,
        expression_rolled(text, limits, draws).outcome == Ok::<Rolled, Failure>(
            Rolled { rolls: Seq::empty(), dice: text, vals: text },
        ),
{
    let spans = terms(text);
    let rolls = Seq::<DiceRollView>::empty();
    let shown_rolls = rolls.map_values(|roll: DiceRollView| shown(roll));
    let shown_sums = Seq::<int>::empty().map_values(|sum: int| decimal(sum));
    assert(replaced(text, spans, shown_rolls) =~= text);
    assert(replaced(text, spans, shown_sums) =~= text);
}

proof fn lemma_no_digit_no_term(text: Seq<char>, from: int)
    requires
        forall|i: int| 0 <= i < text.len() ==> !is_digit(#[trigger] text[i]),
    ensures
        next_term(text, from) is None,
    decreases text.len() - from,
{
    if 0 <= from < text.len() {
        assert(!term_starts(text, from));
        lemma_no_digit_no_term(text, from + 1);
    }
}

/// A blank expression is refused as empty, and no die is drawn for it.
pub proof fn lemma_blank_is_refused(text: Seq<char>, limits: Limits, draws: Seq<nat>)
    requires
        is_blank(text),
    ensures
        expression_rolled(text, limits, draws).used == 0,
        expression_text(text, limits, draws) == Err::<Seq<char>, Failure>(
            Failure::EmptyExpression,
        ),
        expression_value(text, limits, draws) == Err::<int, Failure>(Failure::EmptyExpression),
{
    assert forall|i: int| 0 <= i < text.len() implies !is_digit(#[trigger] text[i]) by {
        assert(is_space(text[i]));
    }
    lemma_no_digit_no_term(text, 0);
    lemma_no_terms_no_change(text, limits, draws);
}

proof fn lemma_digit_run_of_number(text: Seq<char>, from: int, to: int, i: int)
    requires
        0 <= from <= i <= to <= text.len(),
        forall|j: int| from <= j < to ==> is_digit(#[trigger] text[j]),
        to == text.len() || !is_digit(text[to]),
    ensures
        digit_run(text, i) == to - i,
    decreases to - i,
{
    if i < to {
        lemma_digit_run_of_number(text, from, to, i + 1);
    }
}

/// A term that is a count, a `d` and a number of sides, and nothing more,
/// is accepted exactly if the count and the sides lie strictly between 0
/// and their limits. It then asks for that count of dice with the faces
/// from 1 to the number of sides, which neither explode nor have bounds.
pub proof fn lemma_plain_term(count: Seq<char>, sides: Seq<char>, limits: Limits)
    requires
        is_number(count),
        is_number(sides),
    ensures
        parsed(count + seq!['d'] + sides, limits) is Ok <==> 0 < decimal_value(count)
            < limits.max_rolled_dice && 0 < decimal_value(sides) < limits.max_dice_sides,
        parsed(count + seq!['d'] + sides, limits) matches Ok(options) ==> options == (OptionsView {
            count: decimal_value(count),
            faces: numbered_faces(decimal_value(sides)),
            explode: None,
            min: None,
            max: None,
        }),
{
    let text = count + seq!['d'] + sides;
    let c = count.len() as int;
    let n = text.len() as int;
    assert(is_digit(text[0])) by {
        assert(text[0] == count[0]);
    }
    assert(is_digit(text[n - 1])) by {
        assert(text[n - 1] == sides[sides.len() - 1]);
    }
    assert(text[c] == 'd');
    assert(strip_start(text) == text);
    assert(strip_end(text) == text);
    assert(trimmed(text) == text);
    assert forall|j: int| 0 <= j < c implies is_digit(#[trigger] text[j]) by {
        assert(text[j] == count[j]);
    }
    assert forall|j: int| c + 1 <= j < n implies is_digit(#[trigger] text[j]) by {
        assert(text[j] == sides[j - c - 1]);
    }
    lemma_digit_run_of_number(text, 0, c, 1);
    lemma_digit_run_of_number(text, c + 1, n, c + 2);
    assert(token_len(text, 0) == c);
    assert(plain_run(text, c + 1) == 0);
    assert(token_len(text, c) == 1);
    assert(token_len(text, c + 1) == n - c - 1);
    let toks = tokens(text);
    assert(toks =~= seq![(0int, c), (c, c + 1), (c + 1, n)]) by {
        reveal_with_fuel(tokens_from, 4);
    }
    assert(token_text(text, toks[0]) =~= count);
    assert(token_text(text, toks[1]) =~= seq!['d']);
    assert(token_text(text, toks[2]) =~= sides);
    assert(RollOption::read(seq!['d']) == Some(RollOption::Valued(Valued::DiceSides)));
    lemma_decimal_value_prefix(sides, sides.len() as int);
    assert(sides.take(sides.len() as int) =~= sides);
    lemma_decimal_value_prefix(count, count.len() as int);
    assert(count.take(count.len() as int) =~= count);
    let step = valued(Draft::blank(), Valued::DiceSides, sides, limits);
    assert(read_options(text, toks, 1, limits, Draft::blank()) == match step {
        Err(failure) => Err(failure),
        Ok(next) => Ok(next),
    }) by {
        reveal_with_fuel(read_options, 3);
    }
    if let Ok(next) = step {
        assert(next.faces == Some(numbered_faces(decimal_value(sides))));
        assert(numbered_faces(decimal_value(sides)).len() == decimal_value(sides));
    }
}

} // verus!
