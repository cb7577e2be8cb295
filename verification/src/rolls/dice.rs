//! One rolled dice term: how its dice are drawn, which totals count, and
//! how it is shown.

use crate::error::{Failure, RollError};
use crate::limits::{DiceInt, Limits};
use crate::rolls::options::{faces_of, parse_with, parsed, Explode, Options, OptionsView};
use crate::source::DrawSource;
use crate::text::{decimal, push_decimal, string_of};
use vstd::prelude::*;

verus! {

/// A rolled dice term, such as `3d20` with the totals 1, 5 and 20.
#[derive(Eq, PartialEq, Debug)]
pub struct DiceRoll {
    /// The options that the term was rolled under.
    pub options: Options,
    /// The total of each die, in the order rolled. A compounding die has one
    /// total; each extra die of an exploding one has its own.
    pub rolls: Vec<DiceInt>,
}

/// `DiceRoll` as mathematical values.
pub struct DiceRollView {
    pub options: OptionsView,
    pub rolls: Seq<int>,
}

/// The totals as integers.
pub open spec fn totals_of(rolls: Seq<DiceInt>) -> Seq<int> {
    rolls.map_values(|v: DiceInt| v as int)
}

impl View for DiceRoll {
    type V = DiceRollView;

    open spec fn view(&self) -> DiceRollView {
        DiceRollView { options: self.options@, rolls: totals_of(self.rolls@) }
    }
}

/// Whether `v` fits the integer type of the dice.
pub open spec fn fits(v: int) -> bool {
    DiceInt::MIN <= v <= DiceInt::MAX
}

/// The highest face.
pub open spec fn top_face(faces: Seq<int>) -> int
    decreases faces.len(),
{
    if faces.len() <= 1 {
        faces[0]
    } else {
        let rest = top_face(faces.drop_last());
        if faces.last() > rest {
            faces.last()
        } else {
            rest
        }
    }
}

/// How the rolling of one term ended, and how many draws it made.
pub struct Run {
    pub outcome: Result<Seq<int>, Failure>,
    pub used: nat,
}

/// How far the rolling of one term has come.
pub struct Progress {
    /// How many dice are still to be started.
    pub pending: nat,
    /// The running total of a compounding die that has shown its highest
    /// face and is drawn again.
    pub open: Option<int>,
    /// The totals of the finished dice, in the order rolled.
    pub done: Seq<int>,
}

impl Progress {
    /// No die is open or pending.
    pub open spec fn finished(self) -> bool {
        self.open is None && self.pending == 0
    }
}

/// What one more draw does, when it shows `face`.
///
/// - With a die open, the face is added to its total. This fails if the
///   total leaves the integer type. The die stays open if the face is the
///   highest again, and is finished otherwise.
/// - Else a new die is started. If it shows the highest face, a compounding
///   die becomes the open one, and an exploding die is finished with one
///   more die to follow. Any other die is simply finished.
pub open spec fn after_draw(options: OptionsView, progress: Progress, face: int) -> Result<
    Progress,
    Failure,
> {
    let top = top_face(options.faces);
    match progress.open {
        Some(total) => {
            if !fits(total + face) {
                Err(Failure::Overflow)
            } else if face == top {
                Ok(Progress { open: Some(total + face), ..progress })
            } else {
                Ok(Progress { open: None, done: progress.done.push(total + face), ..progress })
            }
        },
        None => {
            if face == top && options.explode == Some(Explode::Compounding) {
                Ok(Progress { pending: (progress.pending - 1) as nat, open: Some(face), ..progress })
            } else if face == top && options.explode == Some(Explode::Standard) {
                Ok(Progress { done: progress.done.push(face), ..progress })
            } else {
                Ok(
                    Progress {
                        pending: (progress.pending - 1) as nat,
                        done: progress.done.push(face),
                        ..progress
                    },
                )
            }
        },
    }
}

/// The rest of a term's rolling, from the draw at position `at`.
///
/// The rolling ends when no die is open or pending. It fails when a draw
/// fails, and when `limit` draws have been made and another is needed.
///
/// The extra dice of exploding ones are rolled after all that were pending
/// before them. So the dice come in waves: those of the term, then one for
/// each of them that showed the highest face, then one for each of those,
/// and so on until a wave shows none.
pub open spec fn run_from(
    options: OptionsView,
    limit: nat,
    draws: Seq<nat>,
    at: nat,
    progress: Progress,
) -> Run
    decreases limit - at,
{
    if progress.finished() {
        Run { outcome: Ok(progress.done), used: at }
    } else if at >= limit {
        Run { outcome: Err(Failure::TooManyDraws { limit: limit as int }), used: at }
    } else {
        match after_draw(options, progress, options.faces[draws[at as int] as int]) {
            Err(failure) => Run { outcome: Err(failure), used: at + 1 },
            Ok(next) => run_from(options, limit, draws, at + 1, next),
        }
    }
}

/// How many dice a term starts with.
pub open spec fn dice_to_start(options: OptionsView) -> nat {
    if options.count > 0 {
        options.count as nat
    } else {
        0
    }
}

/// The rolling of a term whose draws, in order, are `draws`: each draw is
/// the position of a face. A die without faces cannot be rolled.
pub open spec fn rolled(options: OptionsView, limit: nat, draws: Seq<nat>) -> Run {
    if options.faces.len() == 0 {
        Run { outcome: Err(Failure::NoSides), used: 0 }
    } else {
        run_from(
            options,
            limit,
            draws,
            0,
            Progress { pending: dice_to_start(options), open: None, done: Seq::empty() },
        )
    }
}

/// The rolling makes its draws one after the other from `at` on.
pub proof fn lemma_run_from_moves_on(
    options: OptionsView,
    limit: nat,
    draws: Seq<nat>,
    at: nat,
    progress: Progress,
)
    ensures
        run_from(options, limit, draws, at, progress).used >= at,
        !progress.finished() && at < limit ==> run_from(options, limit, draws, at, progress).used
            > at,
    decreases limit - at,
{
    if !progress.finished() && at < limit {
        match after_draw(options, progress, options.faces[draws[at as int] as int]) {
            Err(_) => {},
            Ok(next) => {
                lemma_run_from_moves_on(options, limit, draws, at + 1, next);
            },
        }
    }
}

/// The rest of a rolling depends on no draw but those it uses: two lists of
/// draws that agree on them give the same rolling.
pub proof fn lemma_run_from_reads_its_draws(
    options: OptionsView,
    limit: nat,
    draws: Seq<nat>,
    other: Seq<nat>,
    at: nat,
    progress: Progress,
)
    requires
        forall|i: int|
            at <= i < run_from(options, limit, draws, at, progress).used ==> draws[i] == other[i],
    ensures
        run_from(options, limit, other, at, progress) == run_from(
            options,
            limit,
            draws,
            at,
            progress,
        ),
    decreases limit - at,
{
    if !progress.finished() && at < limit {
        lemma_run_from_moves_on(options, limit, draws, at, progress);
        match after_draw(options, progress, options.faces[draws[at as int] as int]) {
            Err(_) => {},
            Ok(next) => {
                lemma_run_from_reads_its_draws(options, limit, draws, other, at + 1, next);
            },
        }
    }
}

/// A rolling depends on no draw but those it uses: two lists of draws that
/// agree on them give the same rolling.
pub proof fn lemma_rolled_reads_its_draws(
    options: OptionsView,
    limit: nat,
    draws: Seq<nat>,
    other: Seq<nat>,
)
    requires
        forall|i: int| 0 <= i < rolled(options, limit, draws).used ==> draws[i] == other[i],
    ensures
        rolled(options, limit, other) == rolled(options, limit, draws),
{
    if options.faces.len() > 0 {
        lemma_run_from_reads_its_draws(
            options,
            limit,
            draws,
            other,
            0,
            Progress { pending: dice_to_start(options), open: None, done: Seq::empty() },
        );
    }
}

/// `longer` starts with `shorter`.
pub open spec fn starts_with(longer: Seq<nat>, shorter: Seq<nat>) -> bool {
    shorter.len() <= longer.len() && longer.subrange(0, shorter.len() as int) =~= shorter
}

/// A list of draws starts with itself, and what follows `base` in `base`
/// and `made` in a row is `made`.
pub proof fn lemma_draws_after(base: Seq<nat>, made: Seq<nat>)
    ensures
        starts_with(made, made),
        starts_with(base + made, base),
        (base + made).skip(base.len() as int) == made,
{
    assert(made.subrange(0, made.len() as int) =~= made);
    assert((base + made).subrange(0, base.len() as int) =~= base);
    assert((base + made).skip(base.len() as int) =~= made);
}

/// What starts with `earlier` and `part` in a row starts with `earlier`,
/// and goes on with `part`.
pub proof fn lemma_draws_go_on(d: Seq<nat>, earlier: Seq<nat>, part: Seq<nat>)
    requires
        starts_with(d, earlier + part),
    ensures
        starts_with(d, earlier),
        part.len() <= d.skip(earlier.len() as int).len(),
        forall|i: int| 0 <= i < part.len() ==> part[i] == d.skip(earlier.len() as int)[i],
{
    let made = earlier + part;
    assert(d.subrange(0, earlier.len() as int) =~= d.subrange(0, made.len() as int).subrange(
        0,
        earlier.len() as int,
    ));
    assert forall|i: int| 0 <= i < part.len() implies part[i] == d.skip(earlier.len() as int)[i] by {
        assert(d.subrange(0, made.len() as int)[earlier.len() + i] == made[earlier.len() + i]);
    }
}

/// The draws that `after` has recorded beyond those of `before`.
pub open spec fn fresh_draws<S: DrawSource>(before: &S, after: &S) -> Seq<nat> {
    after.drawn().skip(before.drawn().len() as int)
}

/// `after` has recorded every draw of `before`, and then perhaps more.
pub open spec fn drew_on<S: DrawSource>(before: &S, after: &S) -> bool {
    starts_with(after.drawn(), before.drawn())
}

/// Whether what came back is the value `asked`, seen as mathematical values.
pub open spec fn roll_agrees(got: Result<DiceRoll, RollError>, asked: Result<Seq<int>, Failure>) -> bool {
    match got {
        Ok(roll) => asked == Ok::<Seq<int>, Failure>(roll@.rolls),
        Err(error) => asked == Err::<Seq<int>, Failure>(error@),
    }
}

fn highest(sides: &Vec<DiceInt>) -> (top: DiceInt)
    requires
        sides.len() > 0,
    ensures
        top == top_face(faces_of(sides@)),
{
    let mut top: DiceInt = sides[0];
    let mut k: usize = 1;
    assert(faces_of(sides@).take(1).drop_last() =~= Seq::<int>::empty());
    while k < sides.len()
        invariant
            1 <= k <= sides.len(),
            top == top_face(faces_of(sides@).take(k as int)),
        decreases sides.len() - k,
    {
        proof {
            let now = faces_of(sides@).take(k + 1);
            assert(now.drop_last() =~= faces_of(sides@).take(k as int));
            assert(now.last() == sides@[k as int]);
        }
        if sides[k] > top {
            top = sides[k];
        }
        k += 1;
    }
    assert(faces_of(sides@).take(sides.len() as int) =~= faces_of(sides@));
    top
}

impl DiceRoll {
    /// Rolls the dice of a term.
    ///
    /// The totals are those that `rolled` gives for the draws that this call
    /// made, and the call made exactly the draws that `rolled` uses.
    pub fn roll<S: DrawSource>(options: Options, limits: &Limits, source: &mut S) -> (result: Result<
        DiceRoll,
        RollError,
    >)
        requires
            options.dice_sides.len() <= u32::MAX,
        ensures
            drew_on(old(source), final(source)),
            rolled(
                options@,
                limits.max_draws as nat,
                fresh_draws(old(source), final(source)),
            ).used == fresh_draws(old(source), final(source)).len(),
            roll_agrees(
                result,
                rolled(
                    options@,
                    limits.max_draws as nat,
                    fresh_draws(old(source), final(source)),
                ).outcome,
            ),
            result matches Ok(roll) ==> roll.options == options,
    {
        let ghost base = source.drawn();
        let ghost view = options@;
        let ghost limit = limits.max_draws as nat;
        let faces: usize = options.dice_sides.len();
        if faces == 0 {
            proof {
                lemma_draws_after(base, Seq::empty());
                assert(base + Seq::<nat>::empty() =~= base);
            }
            return Err(RollError::NoSides);
        }
        let top: DiceInt = highest(&options.dice_sides);
        let mut rolls: Vec<DiceInt> = Vec::new();
        let mut pending: DiceInt = if options.number_of_dice > 0 {
            options.number_of_dice
        } else {
            0
        };
        let mut open: Option<DiceInt> = None;
        let mut at: usize = 0;
        let ghost mut made: Seq<nat> = Seq::empty();
        assert(totals_of(rolls@) =~= Seq::<int>::empty());
        while open.is_some() || pending > 0
            invariant
                view == options@,
                limit == limits.max_draws as nat,
                faces == options.dice_sides.len(),
                0 < faces <= u32::MAX,
                top == top_face(view.faces),
                0 <= pending,
                at == made.len(),
                at <= limit,
                base == old(source).drawn(),
                source.drawn() == base + made,
                forall|d: Seq<nat>| #[trigger]
                    starts_with(d, made) ==> rolled(view, limit, d) == run_from(
                        view,
                        limit,
                        d,
                        at as nat,
                        Progress {
                            pending: pending as nat,
                            open: widen_total(open),
                            done: totals_of(rolls@),
                        },
                    ),
            decreases limits.max_draws - at,
        {
            if at >= limits.max_draws {
                proof {
                    lemma_draws_after(base, made);
                }
                return Err(RollError::TooManyDraws { limit: limits.max_draws });
            }
            let index: u32 = source.draw(faces as u32);
            let face: DiceInt = options.dice_sides[index as usize];
            let ghost state_done = totals_of(rolls@);
            let ghost earlier = made;
            proof {
                made = made.push(index as nat);
                assert(source.drawn() =~= base + made);
                assert(view.faces[index as int] == face);
                assert forall|d: Seq<nat>| #[trigger] starts_with(d, made) implies starts_with(
                    d,
                    earlier,
                ) && d[at as int] == index by {
                    assert(d.subrange(0, made.len() as int)[at as int] == made[at as int]);
                    assert(d.subrange(0, earlier.len() as int) =~= d.subrange(
                        0,
                        made.len() as int,
                    ).subrange(0, earlier.len() as int));
                }
            }
            at += 1;
            match open {
                Some(total) => {
                    match total.checked_add(face) {
                        None => {
                            proof {
                                lemma_draws_after(base, made);
                            }
                            return Err(RollError::Overflow);
                        },
                        Some(sum) => {
                            if face == top {
                                open = Some(sum);
                            } else {
                                rolls.push(sum);
                                open = None;
                                assert(totals_of(rolls@) =~= state_done.push(sum as int));
                            }
                        },
                    }
                },
                None => {
                    if face == top && options.explode == Some(Explode::Compounding) {
                        pending -= 1;
                        open = Some(face);
                    } else if face == top && options.explode == Some(Explode::Standard) {
                        rolls.push(face);
                        assert(totals_of(rolls@) =~= state_done.push(face as int));
                    } else {
                        pending -= 1;
                        rolls.push(face);
                        assert(totals_of(rolls@) =~= state_done.push(face as int));
                    }
                },
            }
        }
        proof {
            lemma_draws_after(base, made);
        }
        Ok(DiceRoll { options, rolls })
    }
}

/// How the reading and rolling of one term ended, and how many draws it
/// made.
pub struct TermRun {
    pub outcome: Result<DiceRollView, Failure>,
    pub used: nat,
}

/// The reading and rolling of the term `text` whose draws, in order, are
/// `draws`. A term that cannot be read makes no draw.
pub open spec fn term_rolled(text: Seq<char>, limits: Limits, draws: Seq<nat>) -> TermRun {
    match parsed(text, limits) {
        Err(failure) => TermRun { outcome: Err(failure), used: 0 },
        Ok(options) => {
            let run = rolled(options, limits.max_draws as nat, draws);
            match run.outcome {
                Err(failure) => TermRun { outcome: Err(failure), used: run.used },
                Ok(rolls) => TermRun { outcome: Ok(DiceRollView { options, rolls }), used: run.used },
            }
        },
    }
}

/// Whether what came back is the value `asked`, seen as mathematical values.
pub open spec fn term_agrees(got: Result<DiceRoll, RollError>, asked: Result<DiceRollView, Failure>) -> bool {
    match got {
        Ok(roll) => asked == Ok::<DiceRollView, Failure>(roll@),
        Err(error) => asked == Err::<DiceRollView, Failure>(error@),
    }
}

impl DiceRoll {
    /// Reads a dice term and rolls it, under the given limits.
    pub fn from_str_with<S: DrawSource>(text: &str, limits: &Limits, source: &mut S) -> (result:
        Result<DiceRoll, RollError>)
        ensures
            drew_on(old(source), final(source)),
            term_rolled(text@, *limits, fresh_draws(old(source), final(source))).used
                == fresh_draws(old(source), final(source)).len(),
            term_agrees(
                result,
                term_rolled(text@, *limits, fresh_draws(old(source), final(source))).outcome,
            ),
    {
        match parse_with(text, limits) {
            Err(error) => {
                proof {
                    lemma_draws_after(source.drawn(), Seq::empty());
                    assert(source.drawn() + Seq::<nat>::empty() =~= source.drawn());
                }
                Err(error)
            },
            Ok(options) => DiceRoll::roll(options, limits, source),
        }
    }

    /// Reads a dice term and rolls it, under the standard limits.
    pub fn from_str<S: DrawSource>(text: &str, source: &mut S) -> (result: Result<
        DiceRoll,
        RollError,
    >)
        ensures
            drew_on(old(source), final(source)),
            term_rolled(text@, Limits::standard(), fresh_draws(old(source), final(source))).used
                == fresh_draws(old(source), final(source)).len(),
            term_agrees(
                result,
                term_rolled(
                    text@,
                    Limits::standard(),
                    fresh_draws(old(source), final(source)),
                ).outcome,
            ),
    {
        DiceRoll::from_str_with(text, &Limits::standard(), source)
    }
}

/// The running total of a compounding die as an integer.
pub open spec fn widen_total(open: Option<DiceInt>) -> Option<int> {
    match open {
        Some(total) => Some(total as int),
        None => None,
    }
}

// ---------------------------------------------------------------------
// Which totals count, their sum, and how a roll is shown
// ---------------------------------------------------------------------
/// The sum of the totals that count, or `None` if the sum leaves the
/// integer type at any point on the way.
pub open spec fn summed(options: OptionsView, rolls: Seq<int>) -> Option<int>
    decreases rolls.len(),
{
    if rolls.len() == 0 {
        Some(0)
    } else {
        match summed(options, rolls.drop_last()) {
            None => None,
            Some(sum) => {
                let next = if options.keeps(rolls.last()) {
                    sum + rolls.last()
                } else {
                    sum
                };
                if fits(next) {
                    Some(next)
                } else {
                    None
                }
            },
        }
    }
}

/// The sum of all totals, whether they count or not.
pub open spec fn total(rolls: Seq<int>) -> int
    decreases rolls.len(),
{
    if rolls.len() == 0 {
        0
    } else {
        total(rolls.drop_last()) + rolls.last()
    }
}

/// Once the sum has left the integer type, more totals do not bring it back.
pub proof fn lemma_summed_stays_lost(options: OptionsView, rolls: Seq<int>, k: int)
    requires
        0 <= k <= rolls.len(),
        summed(options, rolls.take(k)) is None,
    ensures
        summed(options, rolls) is None,
    decreases rolls.len() - k,
{
    if k == rolls.len() {
        assert(rolls.take(k) =~= rolls);
    } else {
        assert(rolls.take(k + 1).drop_last() =~= rolls.take(k));
        lemma_summed_stays_lost(options, rolls, k + 1);
    }
}

/// How one total is shown: as a number, struck through if it does not count.
pub open spec fn shown_total(options: OptionsView, v: int) -> Seq<char> {
    if options.keeps(v) {
        decimal(v)
    } else {
        seq!['~', '~'] + decimal(v) + seq!['~', '~']
    }
}

/// The totals as shown, with `, ` between them.
pub open spec fn listed(options: OptionsView, rolls: Seq<int>) -> Seq<char>
    decreases rolls.len(),
{
    if rolls.len() == 0 {
        Seq::empty()
    } else if rolls.len() == 1 {
        shown_total(options, rolls[0])
    } else {
        listed(options, rolls.drop_last()) + seq![',', ' '] + shown_total(options, rolls.last())
    }
}

/// A roll as shown: its totals in square brackets, in the order rolled.
pub open spec fn shown(roll: DiceRollView) -> Seq<char> {
    seq!['['] + listed(roll.options, roll.rolls) + seq![']']
}

impl DiceRoll {
    /// Whether a total of `dice` counts under this roll's bounds.
    pub fn check_dice(&self, dice: DiceInt) -> (kept: bool)
        ensures
            kept == self@.options.keeps(dice as int),
    {
        if let Some(min) = self.options.min {
            if dice <= min {
                return false;
            }
        }
        if let Some(max) = self.options.max {
            if dice >= max {
                return false;
            }
        }
        true
    }

    /// The sum of the totals that count. Fails if the sum leaves the integer
    /// type at any point.
    pub fn val(&self) -> (result: Result<DiceInt, RollError>)
        ensures
            match result {
                Ok(sum) => summed(self@.options, self@.rolls) == Some(sum as int),
                Err(error) => summed(self@.options, self@.rolls) is None && error@
                    == Failure::Overflow,
            },
    {
        let ghost rolls = self@.rolls;
        let mut sum: DiceInt = 0;
        let mut k: usize = 0;
        assert(rolls.take(0) =~= Seq::<int>::empty());
        while k < self.rolls.len()
            invariant
                k <= self.rolls.len(),
                rolls == self@.rolls,
                summed(self@.options, rolls.take(k as int)) == Some(sum as int),
            decreases self.rolls.len() - k,
        {
            let roll: DiceInt = self.rolls[k];
            proof {
                assert(rolls.take(k + 1).drop_last() =~= rolls.take(k as int));
                assert(rolls.take(k + 1).last() == roll as int);
            }
            if self.check_dice(roll) {
                match sum.checked_add(roll) {
                    Some(next) => {
                        sum = next;
                    },
                    None => {
                        proof {
                            lemma_summed_stays_lost(self@.options, rolls, k + 1);
                        }
                        return Err(RollError::Overflow);
                    },
                }
            }
            k += 1;
        }
        assert(rolls.take(k as int) =~= rolls);
        Ok(sum)
    }

    /// Appends the roll as shown to `out`.
    pub fn show_into(&self, out: &mut Vec<char>)
        ensures
            final(out)@ == old(out)@ + shown(self@),
    {
        let ghost rolls = self@.rolls;
        let ghost options = self@.options;
        out.push('[');
        let mut k: usize = 0;
        assert(rolls.take(0) =~= Seq::<int>::empty());
        assert(out@ =~= old(out)@ + seq!['['] + listed(options, rolls.take(0)));
        while k < self.rolls.len()
            invariant
                k <= self.rolls.len(),
                rolls == self@.rolls,
                options == self@.options,
                out@ == old(out)@ + seq!['['] + listed(options, rolls.take(k as int)),
            decreases self.rolls.len() - k,
        {
            let roll: DiceInt = self.rolls[k];
            let ghost before = out@;
            proof {
                assert(rolls.take(k + 1).drop_last() =~= rolls.take(k as int));
                assert(rolls.take(k + 1).last() == roll as int);
            }
            if k > 0 {
                out.push(',');
                out.push(' ');
            }
            if self.check_dice(roll) {
                push_decimal(out, roll);
            } else {
                out.push('~');
                out.push('~');
                push_decimal(out, roll);
                out.push('~');
                out.push('~');
            }
            proof {
                let piece = shown_total(options, roll as int);
                if k > 0 {
                    assert(out@ =~= before + seq![',', ' '] + piece);
                    assert(listed(options, rolls.take(k + 1)) =~= listed(
                        options,
                        rolls.take(k as int),
                    ) + seq![',', ' '] + piece);
                } else {
                    assert(out@ =~= before + piece);
                    assert(rolls.take(1)[0] == roll as int);
                    assert(listed(options, rolls.take(0)) =~= Seq::<char>::empty());
                    assert(listed(options, rolls.take(1)) =~= piece);
                }
                assert(out@ =~= old(out)@ + seq!['['] + listed(options, rolls.take(k + 1)));
            }
            k += 1;
        }
        assert(rolls.take(k as int) =~= rolls);
        out.push(']');
        assert(out@ =~= old(out)@ + shown(self@));
    }

    /// The roll as shown: every total in roll order between square
    /// brackets, those that do not count struck through with `~~`.
    pub fn dice(&self) -> (text: String)
        ensures
            text@ == shown(self@),
    {
        let mut out: Vec<char> = Vec::new();
        self.show_into(&mut out);
        assert(out@ =~= shown(self@));
        let text = string_of(&out, 0, out.len());
        assert(out@.subrange(0, out.len() as int) =~= out@);
        text
    }
}

} // verus!
