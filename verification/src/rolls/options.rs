//! The options of one dice term, and how they are read from its text.
//!
//! A term reads `<count>d<sides>` followed by any of `!`, `!!`, `<bound>` and
//! `>bound`, as in `10d20!!>20`. `<sides>` is a number or `F`.

use crate::error::{Failure, RollError};
use crate::limits::{DiceInt, Limits};
use crate::text::{
    chars_of, decimal_value, digit, digit_run, digits_to_i32, is_digit, is_number,
    lemma_decimal_value_prefix, lemma_digit_run_inside, number_at, spans_of, string_of, trim,
    trimmed,
};
use vstd::prelude::*;

verus! {

/// What happens when a die shows its highest face.
#[derive(Eq, PartialEq, Debug, Clone, Copy, Structural)]
pub enum Explode {
    /// One more die is rolled.
    Standard,
    /// The die is drawn again and the draw is added to its total.
    Compounding,
}

/// The options of one dice term.
#[derive(Eq, PartialEq, Debug)]
pub struct Options {
    /// How many dice to roll.
    pub number_of_dice: DiceInt,
    /// The value on each face of the die.
    pub dice_sides: Vec<DiceInt>,
    /// What the dice do on showing their highest face, if anything.
    pub explode: Option<Explode>,
    /// A total is kept only if it is above this.
    pub min: Option<DiceInt>,
    /// A total is kept only if it is below this.
    pub max: Option<DiceInt>,
}

/// `Options` as mathematical values.
pub struct OptionsView {
    pub count: int,
    pub faces: Seq<int>,
    pub explode: Option<Explode>,
    pub min: Option<int>,
    pub max: Option<int>,
}

/// A bound as an integer, if it is set.
pub open spec fn widen(v: Option<DiceInt>) -> Option<int> {
    match v {
        Some(n) => Some(n as int),
        None => None,
    }
}

/// The faces as integers.
pub open spec fn faces_of(sides: Seq<DiceInt>) -> Seq<int> {
    sides.map_values(|v: DiceInt| v as int)
}

impl View for Options {
    type V = OptionsView;

    open spec fn view(&self) -> OptionsView {
        OptionsView {
            count: self.number_of_dice as int,
            faces: faces_of(self.dice_sides@),
            explode: self.explode,
            min: widen(self.min),
            max: widen(self.max),
        }
    }
}

impl OptionsView {
    /// The count and the number of faces lie strictly between 0 and their
    /// limits.
    pub open spec fn in_bounds(self, limits: Limits) -> bool {
        &&& 0 < self.count < limits.max_rolled_dice
        &&& 0 < self.faces.len() < limits.max_dice_sides
    }

    /// The faces are those of a Fudge die or of an ordinary die.
    pub open spec fn has_known_faces(self) -> bool {
        is_known_die(self.faces)
    }

    /// Whether a total of `v` counts: it lies strictly above `min` and
    /// strictly below `max`, where they are set.
    pub open spec fn keeps(self, v: int) -> bool {
        &&& self.min matches Some(min) ==> v > min
        &&& self.max matches Some(max) ==> v < max
    }
}

/// The faces of a Fudge die.
pub open spec fn fudge_faces() -> Seq<int> {
    seq![-3, 0, 3]
}

/// The faces of a Fudge die, or the faces `1..=n` of an ordinary die.
pub open spec fn is_known_die(faces: Seq<int>) -> bool {
    faces == fudge_faces() || faces == numbered_faces(faces.len() as int)
}

/// The faces `1..=n` of an ordinary die.
pub open spec fn numbered_faces(n: int) -> Seq<int> {
    Seq::new(
        if n > 0 {
            n as nat
        } else {
            0
        },
        |i: int| i + 1,
    )
}

// ---------------------------------------------------------------------
// Tokens
// ---------------------------------------------------------------------
/// A character that starts a token of its own kind: a digit, `!` or `F`.
pub open spec fn is_mark(c: char) -> bool {
    is_digit(c) || c == '!' || c == 'F'
}

/// How many characters that are no marks stand at `i` and directly after it.
pub open spec fn plain_run(s: Seq<char>, i: int) -> nat
    decreases s.len() - i,
{
    if 0 <= i < s.len() && !is_mark(s[i]) {
        1 + plain_run(s, i + 1)
    } else {
        0
    }
}

/// How many characters the token that starts at `start` has after its
/// first. A token is a run of digits, `!!`, `!`, `F`, or a run of other
/// characters.
pub open spec fn token_tail(s: Seq<char>, start: int) -> nat {
    if is_digit(s[start]) {
        digit_run(s, start + 1)
    } else if s[start] == '!' {
        if start + 1 < s.len() && s[start + 1] == '!' {
            1
        } else {
            0
        }
    } else if s[start] == 'F' {
        0
    } else {
        plain_run(s, start + 1)
    }
}

/// The length of the token that starts at `start`.
pub open spec fn token_len(s: Seq<char>, start: int) -> nat {
    1 + token_tail(s, start)
}

/// The tokens of `s` from `from` on, each as the pair of its first position
/// and the position after its last.
pub open spec fn tokens_from(s: Seq<char>, from: int) -> Seq<(int, int)>
    decreases s.len() - from,
    via tokens_from_ends
{
    if 0 <= from < s.len() {
        let end = from + token_len(s, from);
        seq![(from, end)] + tokens_from(s, end)
    } else {
        seq![]
    }
}

#[via_fn]
proof fn tokens_from_ends(s: Seq<char>, from: int) {
    if 0 <= from < s.len() {
        lemma_token_len_inside(s, from);
    }
}

/// The tokens of `s`.
pub open spec fn tokens(s: Seq<char>) -> Seq<(int, int)> {
    tokens_from(s, 0)
}

/// The text of a token.
pub open spec fn token_text(s: Seq<char>, token: (int, int)) -> Seq<char> {
    s.subrange(token.0, token.1)
}

/// The texts of the tokens of `s`.
pub open spec fn token_texts(s: Seq<char>) -> Seq<Seq<char>> {
    tokens(s).map_values(|token: (int, int)| token_text(s, token))
}

/// Every token lies inside the text and is not empty.
pub proof fn lemma_tokens_inside(s: Seq<char>, from: int, k: int)
    requires
        0 <= k < tokens_from(s, from).len(),
    ensures
        from <= tokens_from(s, from)[k].0 < tokens_from(s, from)[k].1 <= s.len(),
    decreases s.len() - from,
{
    lemma_token_len_inside(s, from);
    if k > 0 {
        let end = from + token_len(s, from);
        lemma_tokens_inside(s, end, k - 1);
    }
}

proof fn lemma_plain_run_inside(s: Seq<char>, i: int)
    requires
        0 <= i <= s.len(),
    ensures
        i + plain_run(s, i) <= s.len(),
    decreases s.len() - i,
{
    if i < s.len() && !is_mark(s[i]) {
        lemma_plain_run_inside(s, i + 1);
    }
}

proof fn lemma_token_len_inside(s: Seq<char>, from: int)
    requires
        0 <= from < s.len(),
    ensures
        from + token_len(s, from) <= s.len(),
{
    lemma_digit_run_inside(s, from + 1);
    lemma_plain_run_inside(s, from + 1);
}

/// Cuts `text` into tokens.
fn token_spans(v: &Vec<char>) -> (spans: Vec<(usize, usize)>)
    ensures
        spans_of(spans@) == tokens(v@),
        forall|k: int|
            0 <= k < spans.len() ==> (#[trigger] spans[k]).0 < spans[k].1 <= v.len(),
{
    let n: usize = v.len();
    let mut spans: Vec<(usize, usize)> = Vec::new();
    let mut i: usize = 0;
    while i < n
        invariant
            n == v.len(),
            i <= n,
            spans_of(spans@) + tokens_from(v@, i as int) == tokens(v@),
            forall|k: int|
                0 <= k < spans.len() ==> (#[trigger] spans[k]).0 < spans[k].1 <= v.len(),
        decreases n - i,
    {
        let start: usize = i;
        let c: char = v[i];
        i += 1;
        if digit(c) {
            while i < n && digit(v[i])
                invariant
                    n == v.len(),
                    start < i <= n,
                    digit_run(v@, start + 1) == (i - start - 1) + digit_run(v@, i as int),
                decreases n - i,
            {
                i += 1;
            }
        } else if c == '!' {
            if i < n && v[i] == '!' {
                i += 1;
            }
        } else if c == 'F' {
        } else {
            while i < n && !(digit(v[i]) || v[i] == '!' || v[i] == 'F')
                invariant
                    n == v.len(),
                    start < i <= n,
                    plain_run(v@, start + 1) == (i - start - 1) + plain_run(v@, i as int),
                decreases n - i,
            {
                i += 1;
            }
        }
        assert(i == start + token_len(v@, start as int));
        let ghost before = spans@;
        spans.push((start, i));
        proof {
            assert(spans_of(spans@) =~= spans_of(before).push((start as int, i as int)));
            assert(spans_of(spans@) + tokens_from(v@, i as int) =~= spans_of(before)
                + tokens_from(v@, start as int));
        }
    }
    assert(spans_of(spans@) + tokens_from(v@, i as int) =~= spans_of(spans@));
    spans
}

/// Cuts `text` into its tokens: runs of digits, `!!`, `!` and `F`, and the
/// runs of other characters between them, in the order of the text.
pub fn split_keeping_delimiters(text: &str) -> (parts: Vec<String>)
    ensures
        parts.len() == token_texts(text@).len(),
        forall|k: int| 0 <= k < parts.len() ==> (#[trigger] parts[k])@ == token_texts(text@)[k],
{
    let v = chars_of(text);
    let spans = token_spans(&v);
    let mut parts: Vec<String> = Vec::new();
    let mut k: usize = 0;
    while k < spans.len()
        invariant
            k <= spans.len(),
            v@ == text@,
            spans_of(spans@) == tokens(v@),
            forall|j: int|
                0 <= j < spans.len() ==> (#[trigger] spans[j]).0 < spans[j].1 <= v.len(),
            parts.len() == k,
            forall|j: int| 0 <= j < k ==> (#[trigger] parts[j])@ == token_texts(text@)[j],
        decreases spans.len() - k,
    {
        let (a, b) = spans[k];
        let part = string_of(&v, a, b);
        proof {
            assert(spans_of(spans@)[k as int] == (a as int, b as int));
        }
        parts.push(part);
        k += 1;
    }
    parts
}

// ---------------------------------------------------------------------
// Options
// ---------------------------------------------------------------------
/// An option that takes a number after it.
#[derive(Debug, Clone, Copy, PartialEq, Eq, Structural)]
pub enum Valued {
    /// `d`: the number of sides.
    DiceSides,
    /// `<`: the bound that kept totals stay under.
    LessThan,
    /// `>`: the bound that kept totals stay over.
    GreaterThan,
}

/// An option of a dice term.
#[derive(Debug, Clone, Copy, PartialEq, Eq, Structural)]
pub enum RollOption {
    Valued(Valued),
    Explode(Explode),
}

impl RollOption {
    /// The option that a token writes: `d`, `<`, `>`, `!` or `!!`.
    pub open spec fn read(token: Seq<char>) -> Option<RollOption> {
        if token.len() == 1 && token[0] == 'd' {
            Some(RollOption::Valued(Valued::DiceSides))
        } else if token.len() == 1 && token[0] == '<' {
            Some(RollOption::Valued(Valued::LessThan))
        } else if token.len() == 1 && token[0] == '>' {
            Some(RollOption::Valued(Valued::GreaterThan))
        } else if token.len() == 1 && token[0] == '!' {
            Some(RollOption::Explode(Explode::Standard))
        } else if token.len() == 2 && token[0] == '!' && token[1] == '!' {
            Some(RollOption::Explode(Explode::Compounding))
        } else {
            None
        }
    }

    fn read_at(v: &Vec<char>, from: usize, to: usize) -> (option: Option<RollOption>)
        requires
            from <= to <= v.len(),
        ensures
            option == RollOption::read(v@.subrange(from as int, to as int)),
    {
        if to - from == 1 {
            let c: char = v[from];
            if c == 'd' {
                Some(RollOption::Valued(Valued::DiceSides))
            } else if c == '<' {
                Some(RollOption::Valued(Valued::LessThan))
            } else if c == '>' {
                Some(RollOption::Valued(Valued::GreaterThan))
            } else if c == '!' {
                Some(RollOption::Explode(Explode::Standard))
            } else {
                None
            }
        } else if to - from == 2 && v[from] == '!' && v[from + 1] == '!' {
            Some(RollOption::Explode(Explode::Compounding))
        } else {
            None
        }
    }

    /// Reads one token as an option.
    pub fn parse(token: &str) -> (option: Option<RollOption>)
        ensures
            option == RollOption::read(token@),
    {
        let v = chars_of(token);
        assert(v@.subrange(0, v.len() as int) =~= v@);
        RollOption::read_at(&v, 0, v.len())
    }
}

/// The token `F`, which stands for the faces of a Fudge die.
pub open spec fn is_fudge(token: Seq<char>) -> bool {
    token.len() == 1 && token[0] == 'F'
}

/// What has been read of a term's options so far.
pub struct Draft {
    pub faces: Option<Seq<int>>,
    pub explode: Option<Explode>,
    pub min: Option<int>,
    pub max: Option<int>,
}

impl Draft {
    /// Nothing read yet.
    pub open spec fn blank() -> Draft {
        Draft { faces: None, explode: None, min: None, max: None }
    }

    /// The faces that have been read are those of a Fudge die or of an
    /// ordinary die, and are fewer than the limit.
    pub open spec fn sides_in_bounds(self, limits: Limits) -> bool {
        self.faces matches Some(faces) ==> faces.len() < limits.max_dice_sides && is_known_die(
            faces,
        )
    }
}

/// The draft after the option `explode` has been read: compounding, once
/// asked for, stays.
pub open spec fn exploding(draft: Draft, explode: Explode) -> Draft {
    let explode = if draft.explode == Some(Explode::Compounding) {
        Explode::Compounding
    } else {
        explode
    };
    Draft { explode: Some(explode), ..draft }
}

/// The draft after the option `kind` has been read with the token `value`
/// behind it, or why that token will not do.
///
/// After `d` stands `F` or a number below the limit on sides; after `<` and
/// `>` stands a number that fits the integer type.
pub open spec fn valued(draft: Draft, kind: Valued, value: Seq<char>, limits: Limits) -> Result<
    Draft,
    Failure,
> {
    match kind {
        Valued::DiceSides => {
            if is_fudge(value) {
                if fudge_faces().len() >= limits.max_dice_sides {
                    Err(Failure::TooManySides { limit: limits.max_dice_sides as int, found: value })
                } else {
                    Ok(Draft { faces: Some(fudge_faces()), ..draft })
                }
            } else if !is_number(value) {
                Err(Failure::InvalidValue(value))
            } else if decimal_value(value) >= limits.max_dice_sides {
                Err(Failure::TooManySides { limit: limits.max_dice_sides as int, found: value })
            } else {
                Ok(Draft { faces: Some(numbered_faces(decimal_value(value))), ..draft })
            }
        },
        Valued::LessThan => {
            if !is_number(value) || decimal_value(value) > DiceInt::MAX {
                Err(Failure::InvalidValue(value))
            } else {
                Ok(Draft { max: Some(decimal_value(value)), ..draft })
            }
        },
        Valued::GreaterThan => {
            if !is_number(value) || decimal_value(value) > DiceInt::MAX {
                Err(Failure::InvalidValue(value))
            } else {
                Ok(Draft { min: Some(decimal_value(value)), ..draft })
            }
        },
    }
}

/// Reads the options that the tokens from the `k`-th on write, starting
/// from `draft`. A later option of a kind replaces an earlier one. The first
/// token that fits nowhere decides the failure.
pub open spec fn read_options(
    s: Seq<char>,
    toks: Seq<(int, int)>,
    k: int,
    limits: Limits,
    draft: Draft,
) -> Result<Draft, Failure>
    decreases toks.len() - k,
{
    if k < 0 || k >= toks.len() {
        Ok(draft)
    } else {
        let token = token_text(s, toks[k]);
        match RollOption::read(token) {
            None => Err(Failure::UnknownToken(token)),
            Some(RollOption::Explode(explode)) => read_options(
                s,
                toks,
                k + 1,
                limits,
                exploding(draft, explode),
            ),
            Some(RollOption::Valued(kind)) => {
                if k + 1 >= toks.len() {
                    Err(Failure::MissingValue(token[0]))
                } else {
                    match valued(draft, kind, token_text(s, toks[k + 1]), limits) {
                        Err(failure) => Err(failure),
                        Ok(next) => read_options(s, toks, k + 2, limits, next),
                    }
                }
            },
        }
    }
}

/// The options that a count and a finished draft make, or why they make
/// none: the sides must be set and not be zero, and the count must lie
/// strictly between 0 and its limit.
pub open spec fn finished(count: Seq<char>, draft: Draft, limits: Limits) -> Result<
    OptionsView,
    Failure,
> {
    match draft.faces {
        None => Err(Failure::MissingSides),
        Some(faces) => {
            if faces.len() == 0 {
                Err(Failure::NoSides)
            } else if decimal_value(count) <= 0 {
                Err(Failure::NoDice)
            } else if decimal_value(count) >= limits.max_rolled_dice {
                Err(Failure::TooManyDice { limit: limits.max_rolled_dice as int, found: count })
            } else {
                Ok(
                    OptionsView {
                        count: decimal_value(count),
                        faces,
                        explode: draft.explode,
                        min: draft.min,
                        max: draft.max,
                    },
                )
            }
        },
    }
}

/// The options that the text of a term writes, or why it writes none.
///
/// Blank space around the term is ignored. The first token is the number of
/// dice; the options follow.
pub open spec fn parsed(text: Seq<char>, limits: Limits) -> Result<OptionsView, Failure> {
    let s = trimmed(text);
    if s.len() == 0 {
        Err(Failure::EmptyExpression)
    } else {
        let toks = tokens(s);
        let count = token_text(s, toks[0]);
        if !is_number(count) {
            Err(Failure::MissingCount(count))
        } else {
            match read_options(s, toks, 1, limits, Draft::blank()) {
                Err(failure) => Err(failure),
                Ok(draft) => finished(count, draft, limits),
            }
        }
    }
}

/// Whether what came back is the value `asked`, seen as mathematical values.
pub open spec fn options_agree(
    got: Result<Options, RollError>,
    asked: Result<OptionsView, Failure>,
) -> bool {
    match got {
        Ok(options) => asked == Ok::<OptionsView, Failure>(options@),
        Err(error) => asked == Err::<OptionsView, Failure>(error@),
    }
}

/// Reading options never takes the number of sides to its limit.
pub proof fn lemma_read_options_in_bounds(
    s: Seq<char>,
    toks: Seq<(int, int)>,
    k: int,
    limits: Limits,
    draft: Draft,
)
    requires
        draft.sides_in_bounds(limits),
    ensures
        read_options(s, toks, k, limits, draft) matches Ok(last) ==> last.sides_in_bounds(limits),
    decreases toks.len() - k,
{
    if 0 <= k < toks.len() {
        let token = token_text(s, toks[k]);
        match RollOption::read(token) {
            None => {},
            Some(RollOption::Explode(explode)) => {
                lemma_read_options_in_bounds(s, toks, k + 1, limits, exploding(draft, explode));
            },
            Some(RollOption::Valued(kind)) => {
                if k + 1 < toks.len() {
                    match valued(draft, kind, token_text(s, toks[k + 1]), limits) {
                        Err(_) => {},
                        Ok(next) => {
                            let value = token_text(s, toks[k + 1]);
                            if is_number(value) {
                                lemma_decimal_value_prefix(value, value.len() as int);
                                assert(value.take(value.len() as int) =~= value);
                            }
                            lemma_read_options_in_bounds(s, toks, k + 2, limits, next);
                        },
                    }
                }
            },
        }
    }
}

/// Whatever `parsed` accepts lies within the limits. The count is the
/// number that the term starts with, and a count of zero or from the limit
/// up is rejected. The faces are those of a Fudge die or `1..=n`, and a die
/// without sides or with as many as the limit or more is rejected.
pub proof fn lemma_parsed_in_bounds(text: Seq<char>, limits: Limits)
    ensures
        parsed(text, limits) matches Ok(options) ==> {
            &&& options.count == decimal_value(
                token_text(trimmed(text), tokens(trimmed(text))[0]),
            )
            &&& options.in_bounds(limits)
            &&& options.has_known_faces()
        },
{
    let s = trimmed(text);
    if s.len() > 0 {
        lemma_read_options_in_bounds(s, tokens(s), 1, limits, Draft::blank());
    }
}

/// The faces `1..=n`.
fn numbered(n: DiceInt) -> (faces: Vec<DiceInt>)
    ensures
        faces_of(faces@) == numbered_faces(n as int),
{
    let mut faces: Vec<DiceInt> = Vec::new();
    let mut k: DiceInt = 0;
    while k < n
        invariant
            0 <= k,
            k <= n || k == 0,
            faces@.len() == k,
            forall|j: int| 0 <= j < k ==> #[trigger] faces@[j] == j + 1,
        decreases n - k,
    {
        k += 1;
        faces.push(k);
    }
    assert(faces_of(faces@) =~= numbered_faces(n as int)) by {
        assert(faces_of(faces@).len() == numbered_faces(n as int).len());
        assert forall|j: int| 0 <= j < faces@.len() implies faces_of(faces@)[j] == numbered_faces(
            n as int,
        )[j] by {
            assert(faces@[j] == j + 1);
        }
    }
    faces
}

/// The draft that the pieces read so far stand for.
pub open spec fn draft_of(
    faces: Option<Vec<DiceInt>>,
    explode: Option<Explode>,
    min: Option<DiceInt>,
    max: Option<DiceInt>,
) -> Draft {
    Draft {
        faces: match faces {
            Some(sides) => Some(faces_of(sides@)),
            None => None,
        },
        explode,
        min: widen(min),
        max: widen(max),
    }
}

/// Reads the options of one dice term under the given limits.
pub fn parse_with(text: &str, limits: &Limits) -> (result: Result<Options, RollError>)
    ensures
        options_agree(result, parsed(text@, *limits)),
        result matches Ok(options) ==> options@.in_bounds(*limits) && options@.has_known_faces(),
{
    let whole = chars_of(text);
    parse_chars(&whole, limits)
}

/// Reads the options of one dice term, given as characters.
pub fn parse_chars(text: &Vec<char>, limits: &Limits) -> (result: Result<Options, RollError>)
    ensures
        options_agree(result, parsed(text@, *limits)),
        result matches Ok(options) ==> options@.in_bounds(*limits) && options@.has_known_faces(),
{
    let v = trim(text);
    proof {
        lemma_parsed_in_bounds(text@, *limits);
    }
    if v.len() == 0 {
        return Err(RollError::EmptyExpression);
    }
    let spans = token_spans(&v);
    let ghost s = v@;
    let ghost toks = tokens(s);
    proof {
        assert(toks.len() > 0);
        assert forall|k: int| 0 <= k < spans.len() implies toks[k] == ((#[trigger] spans[k]).0 as int, spans[k].1 as int) by {
            assert(spans_of(spans@)[k] == (spans[k].0 as int, spans[k].1 as int));
        }
    }
    let (count_from, count_to) = spans[0];
    if !number_at(&v, count_from, count_to) {
        return Err(RollError::MissingCount(string_of(&v, count_from, count_to)));
    }
    let count: Option<DiceInt> = digits_to_i32(&v, count_from, count_to);
    let ghost count_text = token_text(s, toks[0]);
    assert(count_text == v@.subrange(count_from as int, count_to as int));

    let mut faces: Option<Vec<DiceInt>> = None;
    let mut explode: Option<Explode> = None;
    let mut min: Option<DiceInt> = None;
    let mut max: Option<DiceInt> = None;
    let mut k: usize = 1;
    while k < spans.len()
        invariant
            1 <= k <= spans.len(),
            s == v@,
            toks == tokens(s),
            toks.len() == spans.len(),
            forall|j: int|
                0 <= j < spans.len() ==> toks[j] == ((#[trigger] spans[j]).0 as int, spans[j].1 as int),
            forall|j: int|
                0 <= j < spans.len() ==> (#[trigger] spans[j]).0 < spans[j].1 <= v.len(),
            read_options(s, toks, k as int, *limits, draft_of(faces, explode, min, max))
                == read_options(s, toks, 1, *limits, Draft::blank()),
            parsed(text@, *limits) == match read_options(s, toks, 1, *limits, Draft::blank()) {
                Err(failure) => Err(failure),
                Ok(draft) => finished(count_text, draft, *limits),
            },
        decreases spans.len() - k,
    {
        let (from, to) = spans[k];
        let ghost draft = draft_of(faces, explode, min, max);
        let ghost token = token_text(s, toks[k as int]);
        assert(token == v@.subrange(from as int, to as int));
        match RollOption::read_at(&v, from, to) {
            None => {
                return Err(RollError::UnknownToken(string_of(&v, from, to)));
            },
            Some(RollOption::Explode(mode)) => {
                explode = if let Some(Explode::Compounding) = explode {
                    Some(Explode::Compounding)
                } else {
                    Some(mode)
                };
                assert(draft_of(faces, explode, min, max) == exploding(draft, mode));
                k += 1;
            },
            Some(RollOption::Valued(kind)) => {
                if k + 1 >= spans.len() {
                    return Err(RollError::MissingValue(v[from]));
                }
                let (value_from, value_to) = spans[k + 1];
                let ghost value = token_text(s, toks[k + 1]);
                assert(value == v@.subrange(value_from as int, value_to as int));
                let is_a_number: bool = number_at(&v, value_from, value_to);
                match kind {
                    Valued::DiceSides => {
                        if value_to - value_from == 1 && v[value_from] == 'F' {
                            if 3 >= limits.max_dice_sides {
                                return Err(
                                    RollError::TooManySides {
                                        limit: limits.max_dice_sides,
                                        found: string_of(&v, value_from, value_to),
                                    },
                                );
                            }
                            let fudge: Vec<DiceInt> = vec![-3, 0, 3];
                            assert(faces_of(fudge@) =~= fudge_faces());
                            faces = Some(fudge);
                        } else if !is_a_number {
                            return Err(
                                RollError::InvalidValue(string_of(&v, value_from, value_to)),
                            );
                        } else {
                            let sides: Option<DiceInt> = digits_to_i32(&v, value_from, value_to);
                            match sides {
                                Some(n) if n < limits.max_dice_sides => {
                                    faces = Some(numbered(n));
                                },
                                _ => {
                                    return Err(
                                        RollError::TooManySides {
                                            limit: limits.max_dice_sides,
                                            found: string_of(&v, value_from, value_to),
                                        },
                                    );
                                },
                            }
                        }
                    },
                    Valued::LessThan => {
                        if !is_a_number {
                            return Err(
                                RollError::InvalidValue(string_of(&v, value_from, value_to)),
                            );
                        }
                        match digits_to_i32(&v, value_from, value_to) {
                            Some(n) => {
                                max = Some(n);
                            },
                            None => {
                                return Err(
                                    RollError::InvalidValue(string_of(&v, value_from, value_to)),
                                );
                            },
                        }
                    },
                    Valued::GreaterThan => {
                        if !is_a_number {
                            return Err(
                                RollError::InvalidValue(string_of(&v, value_from, value_to)),
                            );
                        }
                        match digits_to_i32(&v, value_from, value_to) {
                            Some(n) => {
                                min = Some(n);
                            },
                            None => {
                                return Err(
                                    RollError::InvalidValue(string_of(&v, value_from, value_to)),
                                );
                            },
                        }
                    },
                }
                assert(valued(draft, kind, value, *limits) == Ok::<Draft, Failure>(
                    draft_of(faces, explode, min, max),
                ));
                k += 2;
            },
        }
    }
    let sides: Vec<DiceInt> = match faces {
        None => {
            return Err(RollError::MissingSides);
        },
        Some(sides) => sides,
    };
    if sides.len() == 0 {
        return Err(RollError::NoSides);
    }
    match count {
        Some(n) if n <= 0 => Err(RollError::NoDice),
        Some(n) if n < limits.max_rolled_dice => Ok(
            Options { number_of_dice: n, dice_sides: sides, explode, min, max },
        ),
        _ => Err(
            RollError::TooManyDice {
                limit: limits.max_rolled_dice,
                found: string_of(&v, count_from, count_to),
            },
        ),
    }
}

/// Reads the options of one dice term under the standard limits.
pub fn parse(text: &str) -> (result: Result<Options, RollError>)
    ensures
        options_agree(result, parsed(text@, Limits::standard())),
        result matches Ok(options) ==> options@.in_bounds(Limits::standard())
            && options@.has_known_faces(),
{
    parse_with(text, &Limits::standard())
}

} // verus!
