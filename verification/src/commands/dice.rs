//! The dice commands: many rolls of one expression, their tally, and rolls
//! inside a longer message.

use crate::error::{Failure, RollError};
use crate::limits::{DiceInt, Limits};
use crate::rolls::dice::{
    drew_on, fresh_draws, lemma_draws_after, lemma_draws_go_on, starts_with,
};
use crate::rolls::laws::{count_of, lemma_same_draws_same_answer};
use crate::rolls::scan::{in_order, replace_spans, replaced, texts_of};
use crate::rolls::{
    expression_rolled, expression_text, expression_value, roll_expression_value_with,
    roll_expression_with,
};
use crate::source::DrawSource;
use crate::text::{
    byte_len, chars_of, count_bytes, decimal, digits_of, lemma_byte_len_sum, push_decimal,
    push_digits, push_range, spans_of, string_of, trim, trimmed,
};
use vstd::prelude::*;

verus! {

/// Lines gathered into messages: those that are full, and the one that is
/// still filling.
pub struct Batches {
    pub full: Seq<Seq<char>>,
    pub filling: Seq<char>,
}

/// The lines gathered into messages, one line after the other. A line is
/// added to the message that is filling, unless the two together would take
/// `limit` bytes or more: then that message is full, and the line starts the
/// next.
pub open spec fn batches(lines: Seq<Seq<char>>, limit: nat) -> Batches
    decreases lines.len(),
{
    if lines.len() == 0 {
        Batches { full: Seq::empty(), filling: Seq::empty() }
    } else {
        let before = batches(lines.drop_last(), limit);
        if byte_len(before.filling) + byte_len(lines.last()) >= limit {
            Batches { full: before.full.push(before.filling), filling: lines.last() }
        } else {
            Batches { full: before.full, filling: before.filling + lines.last() }
        }
    }
}

/// The messages that the lines make: the full ones, and the one still
/// filling unless it is empty.
pub open spec fn batched(lines: Seq<Seq<char>>, limit: nat) -> Seq<Seq<char>> {
    let all = batches(lines, limit);
    if all.filling.len() > 0 {
        all.full.push(all.filling)
    } else {
        all.full
    }
}

/// All the texts in a row.
pub open spec fn joined(texts: Seq<Seq<char>>) -> Seq<char>
    decreases texts.len(),
{
    if texts.len() == 0 {
        Seq::empty()
    } else {
        joined(texts.drop_last()) + texts.last()
    }
}

/// A message that may be sent: it is empty, it stays under `limit` bytes,
/// or it is one line that does not.
pub open spec fn sendable(message: Seq<char>, lines: Seq<Seq<char>>, limit: nat) -> bool {
    message.len() == 0 || byte_len(message) < limit || lines.contains(message)
}

proof fn lemma_batches_keep_lines(lines: Seq<Seq<char>>, limit: nat)
    ensures
        joined(batches(lines, limit).full) + batches(lines, limit).filling == joined(lines),
        forall|k: int|
            0 <= k < batches(lines, limit).full.len() ==> sendable(
                #[trigger] batches(lines, limit).full[k],
                lines,
                limit,
            ),
        sendable(batches(lines, limit).filling, lines, limit),
    decreases lines.len(),
{
    let now = batches(lines, limit);
    if lines.len() == 0 {
    } else {
        let rest = lines.drop_last();
        let before = batches(rest, limit);
        lemma_batches_keep_lines(rest, limit);
        lemma_byte_len_sum(before.filling, lines.last());
        assert(lines.last() == lines[lines.len() - 1]);
        assert forall|m: Seq<char>| rest.contains(m) implies lines.contains(m) by {
            let j = choose|j: int| 0 <= j < rest.len() && rest[j] == m;
            assert(lines[j] == m);
        }
        if byte_len(before.filling) + byte_len(lines.last()) >= limit {
            assert(now.full.drop_last() =~= before.full);
            assert forall|k: int| 0 <= k < now.full.len() implies sendable(
                #[trigger] now.full[k],
                lines,
                limit,
            ) by {
                if k < before.full.len() {
                    assert(now.full[k] == before.full[k]);
                    assert(sendable(before.full[k], rest, limit));
                } else {
                    assert(now.full[k] == before.filling);
                }
            }
        } else {
            assert(joined(now.full) + now.filling =~= joined(before.full) + before.filling
                + lines.last());
            assert forall|k: int| 0 <= k < now.full.len() implies sendable(
                #[trigger] now.full[k],
                lines,
                limit,
            ) by {
                assert(sendable(before.full[k], rest, limit));
            }
        }
    }
}

/// Gathering loses nothing and changes no order: the messages in a row are
/// the lines in a row. And every message is empty, or stays under the
/// limit, or is one line that by itself does not.
pub proof fn lemma_batched_keeps_lines(lines: Seq<Seq<char>>, limit: nat)
    ensures
        joined(batched(lines, limit)) == joined(lines),
        forall|k: int|
            0 <= k < batched(lines, limit).len() ==> sendable(
                #[trigger] batched(lines, limit)[k],
                lines,
                limit,
            ),
{
    lemma_batches_keep_lines(lines, limit);
    let all = batches(lines, limit);
    if all.filling.len() > 0 {
        assert(batched(lines, limit).drop_last() =~= all.full);
        assert forall|k: int| 0 <= k < batched(lines, limit).len() implies sendable(
            #[trigger] batched(lines, limit)[k],
            lines,
            limit,
        ) by {
            if k < all.full.len() {
                assert(batched(lines, limit)[k] == all.full[k]);
            }
        }
    } else {
        assert(joined(all.full) + all.filling =~= joined(all.full));
    }
}

/// Gathers lines into messages that stay under `limit` bytes where a line
/// alone does.
pub fn batch(lines: &Vec<Vec<char>>, limit: usize) -> (messages: Vec<Vec<char>>)
    ensures
        texts_of(messages@) == batched(texts_of(lines@), limit as nat),
{
    let ghost all = texts_of(lines@);
    let mut messages: Vec<Vec<char>> = Vec::new();
    let mut filling: Vec<char> = Vec::new();
    let mut filled: usize = 0;
    let mut k: usize = 0;
    proof {
        assert(all.take(0) =~= Seq::<Seq<char>>::empty());
        assert(texts_of(messages@) =~= Seq::<Seq<char>>::empty());
        assert(filling@ =~= Seq::<char>::empty());
    }
    while k < lines.len()
        invariant
            k <= lines.len(),
            all == texts_of(lines@),
            texts_of(messages@) == batches(all.take(k as int), limit as nat).full,
            filling@ == batches(all.take(k as int), limit as nat).filling,
            filled == crate::text::least(byte_len(filling@) as int, limit as int),
        decreases lines.len() - k,
    {
        let line = &lines[k];
        let bytes: usize = count_bytes(line, limit);
        proof {
            assert(all.take(k + 1).drop_last() =~= all.take(k as int));
            assert(all.take(k + 1).last() == line@);
            lemma_byte_len_sum(filling@, line@);
        }
        if filled >= limit - bytes {
            let ghost before = texts_of(messages@);
            let ghost closing = filling@;
            messages.push(filling);
            filling = Vec::new();
            filled = 0;
            proof {
                assert(texts_of(messages@) =~= before.push(closing));
                lemma_byte_len_sum(filling@, line@);
            }
        }
        let ghost start = filling@;
        push_range(&mut filling, line, 0, line.len());
        proof {
            assert(line@.subrange(0, line.len() as int) =~= line@);
            assert(filling@ =~= start + line@);
        }
        filled = if filled >= limit - bytes {
            limit
        } else {
            filled + bytes
        };
        k += 1;
    }
    assert(all.take(k as int) =~= all);
    if filling.len() > 0 {
        let ghost before = texts_of(messages@);
        let ghost closing = filling@;
        messages.push(filling);
        assert(texts_of(messages@) =~= before.push(closing));
    }
    messages
}

// ---------------------------------------------------------------------
// Many rolls of one expression
// ---------------------------------------------------------------------
/// The expression that is rolled when none is given.
pub open spec fn or_default(arg: Seq<char>) -> Seq<char> {
    if arg.len() == 0 {
        seq!['1', 'd', '2', '0']
    } else {
        arg
    }
}

/// The expression to roll: `arg`, or `1d20` if `arg` is empty.
pub fn expression_or_default(arg: &str) -> (expression: Vec<char>)
    ensures
        expression@ == or_default(arg@),
{
    let v = chars_of(arg);
    if v.len() == 0 {
        vec!['1', 'd', '2', '0']
    } else {
        v
    }
}

/// At most this many rolls are shown one by one.
pub const MANY_ROLLS: u32 = 100;

/// At most this many rolls are tallied.
pub const TALLIED_ROLLS: u32 = 500;

/// The rolls that are shown one by one fill at most this many messages.
pub const MANY_MESSAGES: usize = 3;

/// Why a command has nothing to send.
#[derive(Debug, PartialEq, Eq)]
#[allow(inconsistent_fields)]
pub enum CommandError {
    /// More rolls were asked for than the command makes.
    TooManyRolls { limit: u32 },
    /// The rolls take more messages than the command sends.
    TooManyMessages { limit: usize },
    /// A roll failed.
    Roll(RollError),
}

/// `CommandError` as mathematical values.
#[allow(inconsistent_fields)]
pub enum CommandFailure {
    TooManyRolls { limit: int },
    TooManyMessages { limit: int },
    Roll(Failure),
}

impl View for CommandError {
    type V = CommandFailure;

    open spec fn view(&self) -> CommandFailure {
        match *self {
            CommandError::TooManyRolls { limit } => CommandFailure::TooManyRolls {
                limit: limit as int,
            },
            CommandError::TooManyMessages { limit } => CommandFailure::TooManyMessages {
                limit: limit as int,
            },
            CommandError::Roll(error) => CommandFailure::Roll(error@),
        }
    }
}

/// The texts that the strings hold.
pub open spec fn strings_of(strings: Seq<String>) -> Seq<Seq<char>> {
    strings.map_values(|s: String| s@)
}

/// How the rolling of one expression several times ended, and how many
/// draws it made.
pub struct TextsRun {
    pub outcome: Result<Seq<Seq<char>>, Failure>,
    pub used: nat,
}

/// The rest of `count` rolls of `arg`, when `done` holds the answers so far
/// and `at` draws have been made. Each roll uses the draws that follow those
/// of the roll before it. The first roll that fails ends it all.
pub open spec fn texts_rolled(
    arg: Seq<char>,
    limits: Limits,
    draws: Seq<nat>,
    count: nat,
    at: nat,
    done: Seq<Seq<char>>,
) -> TextsRun
    decreases count - done.len(),
{
    if done.len() >= count {
        TextsRun { outcome: Ok(done), used: at }
    } else {
        let rest = draws.skip(at as int);
        let used = at + expression_rolled(arg, limits, rest).used;
        match expression_text(arg, limits, rest) {
            Err(failure) => TextsRun { outcome: Err(failure), used },
            Ok(text) => texts_rolled(arg, limits, draws, count, used, done.push(text)),
        }
    }
}

/// Rolls `arg` `count` times and gathers the answers.
fn roll_texts<S: DrawSource>(arg: &str, count: u32, limits: &Limits, source: &mut S) -> (result:
    Result<Vec<Vec<char>>, RollError>)
    ensures
        drew_on(old(source), final(source)),
        texts_rolled(
            arg@,
            *limits,
            fresh_draws(old(source), final(source)),
            count as nat,
            0,
            Seq::empty(),
        ).used == fresh_draws(old(source), final(source)).len(),
        match result {
            Ok(texts) => texts_rolled(
                arg@,
                *limits,
                fresh_draws(old(source), final(source)),
                count as nat,
                0,
                Seq::empty(),
            ).outcome == Ok::<Seq<Seq<char>>, Failure>(texts_of(texts@)),
            Err(error) => texts_rolled(
                arg@,
                *limits,
                fresh_draws(old(source), final(source)),
                count as nat,
                0,
                Seq::empty(),
            ).outcome == Err::<Seq<Seq<char>>, Failure>(error@),
        },
{
    let ghost base = source.drawn();
    let ghost mut made: Seq<nat> = Seq::empty();
    let mut texts: Vec<Vec<char>> = Vec::new();
    let mut k: u32 = 0;
    proof {
        assert(base + made =~= base);
        assert(texts_of(texts@) =~= Seq::<Seq<char>>::empty());
    }
    while k < count
        invariant
            k <= count,
            texts.len() == k,
            base == old(source).drawn(),
            source.drawn() == base + made,
            forall|d: Seq<nat>| #[trigger]
                starts_with(d, made) ==> texts_rolled(arg@, *limits, d, count as nat, 0, Seq::empty())
                    == texts_rolled(
                    arg@,
                    *limits,
                    d,
                    count as nat,
                    made.len(),
                    texts_of(texts@),
                ),
        decreases count - k,
    {
        let ghost earlier = made;
        let ghost before = source.drawn();
        let answer = roll_expression_with(arg, limits, source);
        let ghost part = source.drawn().skip(before.len() as int);
        proof {
            made = earlier + part;
            assert(source.drawn() =~= before + part);
            assert(source.drawn() =~= base + made);
            lemma_draws_after(base, made);
            assert forall|d: Seq<nat>| #[trigger] starts_with(d, made) implies starts_with(
                d,
                earlier,
            ) && expression_rolled(arg@, *limits, d.skip(earlier.len() as int))
                == expression_rolled(arg@, *limits, part) && expression_text(
                arg@,
                *limits,
                d.skip(earlier.len() as int),
            ) == expression_text(arg@, *limits, part) by {
                lemma_draws_go_on(d, earlier, part);
                lemma_same_draws_same_answer(arg@, *limits, part, d.skip(earlier.len() as int));
            }
        }
        let text = match answer {
            Ok(text) => text,
            Err(error) => {
                return Err(error);
            },
        };
        let ghost done = texts_of(texts@);
        let chars = chars_of(text.as_str());
        texts.push(chars);
        proof {
            assert(texts_of(texts@) =~= done.push(text@));
        }
        k += 1;
    }
    proof {
        lemma_draws_after(base, made);
    }
    Ok(texts)
}

/// A line for one of many rolls: its number, `: `, the answer, and a line
/// end.
pub open spec fn numbered_line(number: int, text: Seq<char>) -> Seq<char> {
    digits_of(number as nat) + seq![':', ' '] + text + seq!['\n']
}

/// The lines for many rolls, numbered from 1.
pub open spec fn numbered_lines(texts: Seq<Seq<char>>) -> Seq<Seq<char>> {
    Seq::new(texts.len(), |k: int| numbered_line(k + 1, texts[k]))
}

/// Every text without the blank space at either end.
pub open spec fn all_trimmed(texts: Seq<Seq<char>>) -> Seq<Seq<char>> {
    texts.map_values(|text: Seq<char>| trimmed(text))
}

/// The messages that show many rolls: the numbered lines gathered under
/// `limit` bytes, each message without the blank space at either end. More
/// than `MANY_MESSAGES` of them are not sent.
pub open spec fn many_messages(texts: Seq<Seq<char>>, limit: nat) -> Result<
    Seq<Seq<char>>,
    CommandFailure,
> {
    let messages = batched(numbered_lines(texts), limit);
    if messages.len() > MANY_MESSAGES {
        Err(CommandFailure::TooManyMessages { limit: MANY_MESSAGES as int })
    } else {
        Ok(all_trimmed(messages))
    }
}

/// Whether what came back is the value `asked`, seen as mathematical values.
pub open spec fn messages_agree(
    got: Result<Vec<String>, CommandError>,
    asked: Result<Seq<Seq<char>>, CommandFailure>,
) -> bool {
    match got {
        Ok(messages) => asked == Ok::<Seq<Seq<char>>, CommandFailure>(strings_of(messages@)),
        Err(error) => asked == Err::<Seq<Seq<char>>, CommandFailure>(error@),
    }
}

/// Each message without the blank space at either end, as a string.
fn trim_all(messages: &Vec<Vec<char>>) -> (strings: Vec<String>)
    ensures
        strings_of(strings@) == all_trimmed(texts_of(messages@)),
{
    let mut strings: Vec<String> = Vec::new();
    let mut k: usize = 0;
    while k < messages.len()
        invariant
            k <= messages.len(),
            strings.len() == k,
            forall|j: int| 0 <= j < k ==> (#[trigger] strings@[j])@ == trimmed(messages@[j]@),
        decreases messages.len() - k,
    {
        let short = trim(&messages[k]);
        let string = string_of(&short, 0, short.len());
        assert(short@.subrange(0, short.len() as int) =~= short@);
        strings.push(string);
        k += 1;
    }
    assert(strings_of(strings@) =~= all_trimmed(texts_of(messages@)));
    strings
}

/// The messages that show the answers of many rolls.
pub fn messages_of_many(texts: &Vec<Vec<char>>, limit: usize) -> (result: Result<
    Vec<String>,
    CommandError,
>)
    ensures
        messages_agree(result, many_messages(texts_of(texts@), limit as nat)),
{
    let mut lines: Vec<Vec<char>> = Vec::new();
    let mut k: usize = 0;
    while k < texts.len()
        invariant
            k <= texts.len(),
            lines.len() == k,
            forall|j: int|
                0 <= j < k ==> (#[trigger] lines@[j])@ == numbered_line(j + 1, texts@[j]@),
        decreases texts.len() - k,
    {
        let mut line: Vec<char> = Vec::new();
        push_digits(&mut line, (k + 1) as u64);
        line.push(':');
        line.push(' ');
        push_range(&mut line, &texts[k], 0, texts[k].len());
        line.push('\n');
        proof {
            let text = texts@[k as int]@;
            assert(text.subrange(0, text.len() as int) =~= text);
            assert(line@ =~= numbered_line(k + 1, text));
        }
        lines.push(line);
        k += 1;
    }
    assert(texts_of(lines@) =~= numbered_lines(texts_of(texts@)));
    let messages = batch(&lines, limit);
    if messages.len() > MANY_MESSAGES {
        return Err(CommandError::TooManyMessages { limit: MANY_MESSAGES });
    }
    Ok(trim_all(&messages))
}

/// How a command that rolls ended, and how many draws it made.
pub struct CommandRun {
    pub outcome: Result<Seq<Seq<char>>, CommandFailure>,
    pub used: nat,
}

/// The messages of `count` rolls of `arg`, shown one by one, when the draws
/// are `draws`. More than `MANY_ROLLS` rolls are refused before any die is
/// drawn. Without an expression, `1d20` is rolled.
pub open spec fn many_rolled(
    count: nat,
    arg: Seq<char>,
    message_limit: nat,
    limits: Limits,
    draws: Seq<nat>,
) -> CommandRun {
    if count > MANY_ROLLS {
        CommandRun {
            outcome: Err(CommandFailure::TooManyRolls { limit: MANY_ROLLS as int }),
            used: 0,
        }
    } else {
        let run = texts_rolled(or_default(arg), limits, draws, count, 0, Seq::empty());
        CommandRun {
            outcome: match run.outcome {
                Err(failure) => Err(CommandFailure::Roll(failure)),
                Ok(texts) => many_messages(texts, message_limit),
            },
            used: run.used,
        }
    }
}

/// Rolls `arg` `count` times and shows the rolls one by one, in messages
/// that stay under `message_limit` bytes.
pub fn roll_many<S: DrawSource>(
    count: u32,
    arg: &str,
    message_limit: usize,
    limits: &Limits,
    source: &mut S,
) -> (result: Result<Vec<String>, CommandError>)
    ensures
        drew_on(old(source), final(source)),
        many_rolled(
            count as nat,
            arg@,
            message_limit as nat,
            *limits,
            fresh_draws(old(source), final(source)),
        ).used == fresh_draws(old(source), final(source)).len(),
        messages_agree(
            result,
            many_rolled(
                count as nat,
                arg@,
                message_limit as nat,
                *limits,
                fresh_draws(old(source), final(source)),
            ).outcome,
        ),
{
    if count > MANY_ROLLS {
        proof {
            lemma_draws_after(source.drawn(), Seq::empty());
            assert(source.drawn() + Seq::<nat>::empty() =~= source.drawn());
        }
        return Err(CommandError::TooManyRolls { limit: MANY_ROLLS });
    }
    let expression = expression_or_default(arg);
    let text = string_of(&expression, 0, expression.len());
    assert(expression@.subrange(0, expression.len() as int) =~= expression@);
    match roll_texts(text.as_str(), count, limits, source) {
        Err(error) => Err(CommandError::Roll(error)),
        Ok(texts) => messages_of_many(&texts, message_limit),
    }
}

// ---------------------------------------------------------------------
// The tally of many rolls
// ---------------------------------------------------------------------
/// How the rolling of one expression several times ended, and how many
/// draws it made.
pub struct ValuesRun {
    pub outcome: Result<Seq<int>, Failure>,
    pub used: nat,
}

/// The rest of `count` rolls of `arg`, when `done` holds the values so far
/// and `at` draws have been made. Each roll uses the draws that follow those
/// of the roll before it. The first roll that fails ends it all.
pub open spec fn values_rolled(
    arg: Seq<char>,
    limits: Limits,
    draws: Seq<nat>,
    count: nat,
    at: nat,
    done: Seq<int>,
) -> ValuesRun
    decreases count - done.len(),
{
    if done.len() >= count {
        ValuesRun { outcome: Ok(done), used: at }
    } else {
        let rest = draws.skip(at as int);
        let used = at + expression_rolled(arg, limits, rest).used;
        match expression_value(arg, limits, rest) {
            Err(failure) => ValuesRun { outcome: Err(failure), used },
            Ok(value) => values_rolled(arg, limits, draws, count, used, done.push(value)),
        }
    }
}

/// The values as integers.
pub open spec fn values_of(values: Seq<DiceInt>) -> Seq<int> {
    values.map_values(|value: DiceInt| value as int)
}

/// Rolls `arg` `count` times and gathers the values.
fn roll_values<S: DrawSource>(arg: &str, count: u32, limits: &Limits, source: &mut S) -> (result:
    Result<Vec<DiceInt>, RollError>)
    ensures
        drew_on(old(source), final(source)),
        values_rolled(
            arg@,
            *limits,
            fresh_draws(old(source), final(source)),
            count as nat,
            0,
            Seq::empty(),
        ).used == fresh_draws(old(source), final(source)).len(),
        match result {
            Ok(values) => values_rolled(
                arg@,
                *limits,
                fresh_draws(old(source), final(source)),
                count as nat,
                0,
                Seq::empty(),
            ).outcome == Ok::<Seq<int>, Failure>(values_of(values@)),
            Err(error) => values_rolled(
                arg@,
                *limits,
                fresh_draws(old(source), final(source)),
                count as nat,
                0,
                Seq::empty(),
            ).outcome == Err::<Seq<int>, Failure>(error@),
        },
{
    let ghost base = source.drawn();
    let ghost mut made: Seq<nat> = Seq::empty();
    let mut values: Vec<DiceInt> = Vec::new();
    let mut k: u32 = 0;
    proof {
        assert(base + made =~= base);
        assert(values_of(values@) =~= Seq::<int>::empty());
    }
    while k < count
        invariant
            k <= count,
            values.len() == k,
            base == old(source).drawn(),
            source.drawn() == base + made,
            forall|d: Seq<nat>| #[trigger]
                starts_with(d, made) ==> values_rolled(
                    arg@,
                    *limits,
                    d,
                    count as nat,
                    0,
                    Seq::empty(),
                ) == values_rolled(arg@, *limits, d, count as nat, made.len(), values_of(values@)),
        decreases count - k,
    {
        let ghost earlier = made;
        let ghost before = source.drawn();
        let answer = roll_expression_value_with(arg, limits, source);
        let ghost part = source.drawn().skip(before.len() as int);
        proof {
            made = earlier + part;
            assert(source.drawn() =~= before + part);
            assert(source.drawn() =~= base + made);
            lemma_draws_after(base, made);
            assert forall|d: Seq<nat>| #[trigger] starts_with(d, made) implies starts_with(
                d,
                earlier,
            ) && expression_rolled(arg@, *limits, d.skip(earlier.len() as int))
                == expression_rolled(arg@, *limits, part) && expression_value(
                arg@,
                *limits,
                d.skip(earlier.len() as int),
            ) == expression_value(arg@, *limits, part) by {
                lemma_draws_go_on(d, earlier, part);
                lemma_same_draws_same_answer(arg@, *limits, part, d.skip(earlier.len() as int));
            }
        }
        let value = match answer {
            Ok(value) => value,
            Err(error) => {
                return Err(error);
            },
        };
        let ghost done = values_of(values@);
        values.push(value);
        proof {
            assert(values_of(values@) =~= done.push(value as int));
        }
        k += 1;
    }
    proof {
        lemma_draws_after(base, made);
    }
    Ok(values)
}

/// The tally with one more `value` counted. The tally lists each value
/// with how often it came, lowest value first.
pub open spec fn counted(bins: Seq<(int, int)>, value: int) -> Seq<(int, int)>
    decreases bins.len(),
{
    if bins.len() == 0 {
        seq![(value, 1int)]
    } else if bins.last().0 == value {
        bins.drop_last().push((value, bins.last().1 + 1))
    } else if bins.last().0 < value {
        bins.push((value, 1int))
    } else {
        counted(bins.drop_last(), value).push(bins.last())
    }
}

/// The tally of the values: each value that came, with how often it came,
/// lowest value first.
pub open spec fn tally(values: Seq<int>) -> Seq<(int, int)>
    decreases values.len(),
{
    if values.len() == 0 {
        Seq::empty()
    } else {
        counted(tally(values.drop_last()), values.last())
    }
}

/// The bins as integers.
pub open spec fn bins_of(bins: Seq<(DiceInt, usize)>) -> Seq<(int, int)> {
    bins.map_values(|bin: (DiceInt, usize)| (bin.0 as int, bin.1 as int))
}

/// Counts one more `value` in the tally.
fn count_in(bins: &mut Vec<(DiceInt, usize)>, value: DiceInt)
    requires
        forall|j: int| 0 <= j < old(bins).len() ==> (#[trigger] old(bins)[j]).1 < usize::MAX,
    ensures
        bins_of(final(bins)@) == counted(bins_of(old(bins)@), value as int),
{
    let ghost start = bins_of(bins@);
    let mut i: usize = bins.len();
    assert(start.take(i as int) =~= start);
    assert(start.skip(i as int) =~= Seq::<(int, int)>::empty());
    while i > 0 && bins[i - 1].0 > value
        invariant
            i <= bins.len(),
            bins@ == old(bins)@,
            start == bins_of(bins@),
            counted(start, value as int) == counted(start.take(i as int), value as int)
                + start.skip(i as int),
        decreases i,
    {
        proof {
            let head = start.take(i as int);
            assert(head.last() == start[i - 1]);
            assert(head.drop_last() =~= start.take(i - 1));
            assert(counted(head, value as int) == counted(start.take(i - 1), value as int).push(
                start[i - 1],
            ));
            assert(counted(start.take(i - 1), value as int).push(start[i - 1]) + start.skip(
                i as int,
            ) =~= counted(start.take(i - 1), value as int) + start.skip(i - 1));
        }
        i -= 1;
    }
    let ghost head = start.take(i as int);
    if i > 0 && bins[i - 1].0 == value {
        let seen: usize = bins[i - 1].1;
        bins.set(i - 1, (value, seen + 1));
        proof {
            assert(head.last() == start[i - 1]);
            assert(bins_of(bins@) =~= head.drop_last().push((value as int, seen + 1)) + start.skip(
                i as int,
            ));
        }
    } else {
        bins.insert(i, (value, 1));
        proof {
            if i > 0 {
                assert(head.last() == start[i - 1]);
            }
            assert(counted(head, value as int) =~= head.push((value as int, 1int)));
            assert(bins_of(bins@) =~= head.push((value as int, 1int)) + start.skip(i as int));
        }
    }
}

/// No value is counted more often than there are values.
proof fn lemma_counted_bound(bins: Seq<(int, int)>, value: int, most: int)
    requires
        forall|j: int| 0 <= j < bins.len() ==> (#[trigger] bins[j]).1 <= most,
        0 <= most,
    ensures
        forall|j: int|
            0 <= j < counted(bins, value).len() ==> (#[trigger] counted(bins, value)[j]).1 <= most
                + 1,
    decreases bins.len(),
{
    if bins.len() == 0 {
    } else if bins.last().0 == value {
        assert forall|j: int| 0 <= j < counted(bins, value).len() implies (#[trigger] counted(
            bins,
            value,
        )[j]).1 <= most + 1 by {
            if j < bins.len() - 1 {
                assert(counted(bins, value)[j] == bins[j]);
            }
        }
    } else if bins.last().0 < value {
        assert forall|j: int| 0 <= j < counted(bins, value).len() implies (#[trigger] counted(
            bins,
            value,
        )[j]).1 <= most + 1 by {
            if j < bins.len() {
                assert(counted(bins, value)[j] == bins[j]);
            }
        }
    } else {
        lemma_counted_bound(bins.drop_last(), value, most);
        let inner = counted(bins.drop_last(), value);
        assert forall|j: int| 0 <= j < counted(bins, value).len() implies (#[trigger] counted(
            bins,
            value,
        )[j]).1 <= most + 1 by {
            if j < inner.len() {
                assert(counted(bins, value)[j] == inner[j]);
            } else {
                assert(counted(bins, value)[j] == bins.last());
            }
        }
    }
}

/// Tallies the values.
pub fn tally_values(values: &Vec<DiceInt>) -> (bins: Vec<(DiceInt, usize)>)
    ensures
        bins_of(bins@) == tally(values_of(values@)),
{
    let ghost all = values_of(values@);
    let mut bins: Vec<(DiceInt, usize)> = Vec::new();
    let mut k: usize = 0;
    proof {
        assert(all.take(0) =~= Seq::<int>::empty());
        assert(bins_of(bins@) =~= Seq::<(int, int)>::empty());
    }
    while k < values.len()
        invariant
            k <= values.len(),
            all == values_of(values@),
            bins_of(bins@) == tally(all.take(k as int)),
            forall|j: int| 0 <= j < bins.len() ==> (#[trigger] bins_of(bins@)[j]).1 <= k,
        decreases values.len() - k,
    {
        proof {
            assert(all.take(k + 1).drop_last() =~= all.take(k as int));
            assert(all.take(k + 1).last() == values@[k as int]);
            assert forall|j: int| 0 <= j < bins.len() implies (#[trigger] bins[j]).1
                < usize::MAX by {
                assert(bins_of(bins@)[j].1 <= k);
            }
            lemma_counted_bound(bins_of(bins@), values@[k as int] as int, k as int);
        }
        count_in(&mut bins, values[k]);
        k += 1;
    }
    assert(all.take(k as int) =~= all);
    bins
}

/// The values of the tally rise from each bin to the next.
pub open spec fn ascending(bins: Seq<(int, int)>) -> bool {
    forall|i: int, j: int| 0 <= i < j < bins.len() ==> (#[trigger] bins[i]).0 < (#[trigger] bins[j]).0
}

/// How often the tally says that `value` came.
pub open spec fn listed(bins: Seq<(int, int)>, value: int) -> int
    decreases bins.len(),
{
    if bins.len() == 0 {
        0
    } else {
        listed(bins.drop_last(), value) + if bins.last().0 == value {
            bins.last().1
        } else {
            0
        }
    }
}

proof fn lemma_counted_below(bins: Seq<(int, int)>, value: int, above: int)
    requires
        forall|j: int| 0 <= j < bins.len() ==> (#[trigger] bins[j]).0 < above,
        value < above,
    ensures
        forall|j: int|
            0 <= j < counted(bins, value).len() ==> (#[trigger] counted(bins, value)[j]).0 < above,
    decreases bins.len(),
{
    let after = counted(bins, value);
    if bins.len() == 0 {
    } else if bins.last().0 == value {
        assert forall|j: int| 0 <= j < after.len() implies (#[trigger] after[j]).0 < above by {
            if j < bins.len() - 1 {
                assert(after[j] == bins[j]);
            }
        }
    } else if bins.last().0 < value {
        assert forall|j: int| 0 <= j < after.len() implies (#[trigger] after[j]).0 < above by {
            if j < bins.len() {
                assert(after[j] == bins[j]);
            }
        }
    } else {
        let inner = counted(bins.drop_last(), value);
        assert forall|j: int| 0 <= j < bins.drop_last().len() implies (
        #[trigger] bins.drop_last()[j]).0 < above by {
            assert(bins.drop_last()[j] == bins[j]);
        }
        lemma_counted_below(bins.drop_last(), value, above);
        assert forall|j: int| 0 <= j < after.len() implies (#[trigger] after[j]).0 < above by {
            if j < inner.len() {
                assert(after[j] == inner[j]);
            } else {
                assert(after[j] == bins.last());
            }
        }
    }
}

proof fn lemma_listed_none(bins: Seq<(int, int)>, value: int)
    requires
        forall|j: int| 0 <= j < bins.len() ==> (#[trigger] bins[j]).0 != value,
    ensures
        listed(bins, value) == 0,
    decreases bins.len(),
{
    if bins.len() > 0 {
        assert forall|j: int| 0 <= j < bins.drop_last().len() implies (
        #[trigger] bins.drop_last()[j]).0 != value by {
            assert(bins.drop_last()[j] == bins[j]);
        }
        assert(bins.last() == bins[bins.len() - 1]);
        lemma_listed_none(bins.drop_last(), value);
    }
}

proof fn lemma_counted_counts(bins: Seq<(int, int)>, value: int, other: int)
    requires
        ascending(bins),
        forall|j: int| 0 <= j < bins.len() ==> (#[trigger] bins[j]).1 > 0,
    ensures
        ascending(counted(bins, value)),
        forall|j: int|
            0 <= j < counted(bins, value).len() ==> (#[trigger] counted(bins, value)[j]).1 > 0,
        listed(counted(bins, value), other) == listed(bins, other) + if other == value {
            1int
        } else {
            0int
        },
    decreases bins.len(),
{
    let after = counted(bins, value);
    if bins.len() == 0 {
        assert(after.drop_last() =~= bins);
    } else if bins.last().0 == value {
        assert(after.drop_last() =~= bins.drop_last());
        assert forall|i: int, j: int| 0 <= i < j < after.len() implies (#[trigger] after[i]).0 < (
        #[trigger] after[j]).0 by {
            assert(after[i] == bins[i]);
            assert(after[j].0 == bins[j].0);
        }
        assert forall|j: int| 0 <= j < after.len() implies (#[trigger] after[j]).1 > 0 by {
            if j < bins.len() - 1 {
                assert(after[j] == bins[j]);
            } else {
                assert(bins[j].1 > 0);
            }
        }
    } else if bins.last().0 < value {
        assert(after.drop_last() =~= bins);
        assert forall|i: int, j: int| 0 <= i < j < after.len() implies (#[trigger] after[i]).0 < (
        #[trigger] after[j]).0 by {
            assert(after[i] == bins[i]);
            if j < bins.len() {
                assert(after[j] == bins[j]);
            } else if i < bins.len() - 1 {
                assert(bins[i].0 < bins[bins.len() - 1].0);
            }
        }
        assert forall|j: int| 0 <= j < after.len() implies (#[trigger] after[j]).1 > 0 by {
            if j < bins.len() {
                assert(after[j] == bins[j]);
            }
        }
        assert forall|j: int| 0 <= j < bins.len() implies (#[trigger] bins[j]).0 != value by {
            if j < bins.len() - 1 {
                assert(bins[j].0 < bins[bins.len() - 1].0);
            }
        }
        lemma_listed_none(bins, value);
    } else {
        let rest = bins.drop_last();
        let inner = counted(rest, value);
        assert forall|i: int, j: int| 0 <= i < j < rest.len() implies (#[trigger] rest[i]).0 < (
        #[trigger] rest[j]).0 by {
            assert(rest[i] == bins[i] && rest[j] == bins[j]);
        }
        assert forall|j: int| 0 <= j < rest.len() implies (#[trigger] rest[j]).1 > 0 by {
            assert(rest[j] == bins[j]);
        }
        lemma_counted_counts(rest, value, other);
        assert forall|j: int| 0 <= j < rest.len() implies (#[trigger] rest[j]).0 < bins.last().0 by {
            assert(rest[j] == bins[j]);
            assert(bins[j].0 < bins[bins.len() - 1].0);
        }
        lemma_counted_below(rest, value, bins.last().0);
        assert(after.drop_last() =~= inner);
        assert forall|i: int, j: int| 0 <= i < j < after.len() implies (#[trigger] after[i]).0 < (
        #[trigger] after[j]).0 by {
            assert(after[i] == inner[i]);
            if j < inner.len() {
                assert(after[j] == inner[j]);
            }
        }
        assert forall|j: int| 0 <= j < after.len() implies (#[trigger] after[j]).1 > 0 by {
            if j < inner.len() {
                assert(after[j] == inner[j]);
            } else {
                assert(bins[bins.len() - 1].1 > 0);
            }
        }
    }
}

/// The tally lists its values from the lowest to the highest, each once,
/// each with how often it came, and none that did not come.
pub proof fn lemma_tally_counts(values: Seq<int>, value: int)
    ensures
        ascending(tally(values)),
        forall|j: int| 0 <= j < tally(values).len() ==> (#[trigger] tally(values)[j]).1 > 0,
        listed(tally(values), value) == count_of(values, value),
    decreases values.len(),
{
    if values.len() > 0 {
        lemma_tally_counts(values.drop_last(), value);
        lemma_counted_counts(tally(values.drop_last()), values.last(), value);
    }
}

/// A line of the tally: the value, `: `, how often it came, and a line end.
pub open spec fn tally_line(bin: (int, int)) -> Seq<char> {
    decimal(bin.0) + seq![':', ' '] + digits_of(bin.1 as nat) + seq!['\n']
}

/// The messages that show a tally: its lines gathered under `limit` bytes,
/// each message without the blank space at either end.
pub open spec fn tally_messages(values: Seq<int>, limit: nat) -> Seq<Seq<char>> {
    all_trimmed(batched(tally(values).map_values(|bin: (int, int)| tally_line(bin)), limit))
}

/// The messages that show the tally of the values.
pub fn messages_of_tally(values: &Vec<DiceInt>, limit: usize) -> (messages: Vec<String>)
    ensures
        strings_of(messages@) == tally_messages(values_of(values@), limit as nat),
{
    let bins = tally_values(values);
    let mut lines: Vec<Vec<char>> = Vec::new();
    let mut k: usize = 0;
    while k < bins.len()
        invariant
            k <= bins.len(),
            lines.len() == k,
            forall|j: int|
                0 <= j < k ==> (#[trigger] lines@[j])@ == tally_line(bins_of(bins@)[j]),
        decreases bins.len() - k,
    {
        let (value, seen) = bins[k];
        let mut line: Vec<char> = Vec::new();
        push_decimal(&mut line, value);
        line.push(':');
        line.push(' ');
        push_digits(&mut line, seen as u64);
        line.push('\n');
        proof {
            assert(bins_of(bins@)[k as int] == (value as int, seen as int));
            assert(line@ =~= tally_line((value as int, seen as int)));
        }
        lines.push(line);
        k += 1;
    }
    assert(texts_of(lines@) =~= bins_of(bins@).map_values(|bin: (int, int)| tally_line(bin)));
    let messages = batch(&lines, limit);
    trim_all(&messages)
}

/// The messages of the tally of `count` rolls of `arg`, when the draws are
/// `draws`. More than `TALLIED_ROLLS` rolls are refused before any die is
/// drawn. Without an expression, `1d20` is rolled.
pub open spec fn bincount_rolled(
    count: nat,
    arg: Seq<char>,
    message_limit: nat,
    limits: Limits,
    draws: Seq<nat>,
) -> CommandRun {
    if count > TALLIED_ROLLS {
        CommandRun {
            outcome: Err(CommandFailure::TooManyRolls { limit: TALLIED_ROLLS as int }),
            used: 0,
        }
    } else {
        let run = values_rolled(or_default(arg), limits, draws, count, 0, Seq::empty());
        CommandRun {
            outcome: match run.outcome {
                Err(failure) => Err(CommandFailure::Roll(failure)),
                Ok(values) => Ok(tally_messages(values, message_limit)),
            },
            used: run.used,
        }
    }
}

/// Rolls `arg` `count` times and shows how often each value came, in
/// messages that stay under `message_limit` bytes.
pub fn roll_bincount<S: DrawSource>(
    count: u32,
    arg: &str,
    message_limit: usize,
    limits: &Limits,
    source: &mut S,
) -> (result: Result<Vec<String>, CommandError>)
    ensures
        drew_on(old(source), final(source)),
        bincount_rolled(
            count as nat,
            arg@,
            message_limit as nat,
            *limits,
            fresh_draws(old(source), final(source)),
        ).used == fresh_draws(old(source), final(source)).len(),
        messages_agree(
            result,
            bincount_rolled(
                count as nat,
                arg@,
                message_limit as nat,
                *limits,
                fresh_draws(old(source), final(source)),
            ).outcome,
        ),
{
    if count > TALLIED_ROLLS {
        proof {
            lemma_draws_after(source.drawn(), Seq::empty());
            assert(source.drawn() + Seq::<nat>::empty() =~= source.drawn());
        }
        return Err(CommandError::TooManyRolls { limit: TALLIED_ROLLS });
    }
    let expression = expression_or_default(arg);
    let text = string_of(&expression, 0, expression.len());
    assert(expression@.subrange(0, expression.len() as int) =~= expression@);
    match roll_values(text.as_str(), count, limits, source) {
        Err(error) => Err(CommandError::Roll(error)),
        Ok(values) => Ok(messages_of_tally(&values, message_limit)),
    }
}

// ---------------------------------------------------------------------
// Rolls inside a longer message
// ---------------------------------------------------------------------
/// How many characters other than `]` stand at `i` and directly after it.
pub open spec fn inner_run(s: Seq<char>, i: int) -> nat
    decreases s.len() - i,
{
    if 0 <= i < s.len() && s[i] != ']' {
        1 + inner_run(s, i + 1)
    } else {
        0
    }
}

/// An inline roll starts at `p`: there stand `[[`, one character or more
/// that is no `]`, and `]]`.
pub open spec fn inline_starts(s: Seq<char>, p: int) -> bool {
    let close = p + 2 + inner_run(s, p + 2);
    &&& 0 <= p
    &&& p + 1 < s.len()
    &&& s[p] == '['
    &&& s[p + 1] == '['
    &&& inner_run(s, p + 2) >= 1
    &&& close + 1 < s.len()
    &&& s[close] == ']'
    &&& s[close + 1] == ']'
}

/// Where the inline roll that starts at `p` ends: the position after its
/// `]]`.
pub open spec fn inline_end(s: Seq<char>, p: int) -> int {
    p + 2 + inner_run(s, p + 2) + 2
}

/// Where the first inline roll at `from` or later starts.
pub open spec fn next_inline(s: Seq<char>, from: int) -> Option<int>
    decreases s.len() - from,
{
    if from < 0 || from >= s.len() {
        None
    } else if inline_starts(s, from) {
        Some(from)
    } else {
        next_inline(s, from + 1)
    }
}

proof fn lemma_next_inline_starts(s: Seq<char>, from: int)
    ensures
        next_inline(s, from) matches Some(p) ==> from <= p && inline_starts(s, p),
    decreases s.len() - from,
{
    if 0 <= from < s.len() && !inline_starts(s, from) {
        lemma_next_inline_starts(s, from + 1);
    }
}

/// The inline rolls of `s` from `from` on, in the order of the text and
/// without overlap, each with its brackets.
pub open spec fn inlines_from(s: Seq<char>, from: int) -> Seq<(int, int)>
    decreases s.len() - from,
    via inlines_from_ends
{
    match next_inline(s, from) {
        None => Seq::empty(),
        Some(p) => seq![(p, inline_end(s, p))] + inlines_from(s, inline_end(s, p)),
    }
}

#[via_fn]
proof fn inlines_from_ends(s: Seq<char>, from: int) {
    lemma_next_inline_starts(s, from);
}

/// The inline rolls of `s`.
pub open spec fn inlines(s: Seq<char>) -> Seq<(int, int)> {
    inlines_from(s, 0)
}

/// Whether an inline roll starts at `p`, and where it ends.
fn inline_at(v: &Vec<char>, p: usize) -> (end: Option<usize>)
    requires
        p < v.len(),
    ensures
        end is Some <==> inline_starts(v@, p as int),
        end matches Some(e) ==> e == inline_end(v@, p as int) && p + 4 < e <= v.len(),
{
    let n: usize = v.len();
    if n - p < 2 || v[p] != '[' || v[p + 1] != '[' {
        return None;
    }
    let mut e: usize = p + 2;
    while e < n && v[e] != ']'
        invariant
            n == v.len(),
            p + 2 <= e <= n,
            inner_run(v@, p + 2) == (e - p - 2) + inner_run(v@, e as int),
        decreases n - e,
    {
        e += 1;
    }
    if e == p + 2 || n - e < 2 || v[e + 1] != ']' {
        return None;
    }
    Some(e + 2)
}

/// Finds the inline rolls of `v`.
pub fn find_inlines(v: &Vec<char>) -> (found: Vec<(usize, usize)>)
    ensures
        spans_of(found@) == inlines(v@),
        in_order(spans_of(found@), v.len() as int),
        forall|k: int| 0 <= k < found.len() ==> (#[trigger] found[k]).0 + 4 < found[k].1,
{
    let n: usize = v.len();
    let mut found: Vec<(usize, usize)> = Vec::new();
    let mut p: usize = 0;
    while p < n
        invariant
            n == v.len(),
            p <= n,
            spans_of(found@) + inlines_from(v@, p as int) == inlines(v@),
            in_order(spans_of(found@), p as int),
            forall|k: int| 0 <= k < found.len() ==> (#[trigger] found[k]).0 + 4 < found[k].1,
        decreases n - p,
    {
        match inline_at(v, p) {
            Some(e) => {
                let ghost before = found@;
                found.push((p, e));
                proof {
                    assert(spans_of(found@) =~= spans_of(before).push((p as int, e as int)));
                    assert(spans_of(found@) + inlines_from(v@, e as int) =~= spans_of(before)
                        + inlines_from(v@, p as int));
                    assert forall|k: int| 0 < k < found@.len() implies spans_of(found@)[k - 1].1 <= (
                    #[trigger] spans_of(found@)[k]).0 by {
                        if k < before.len() {
                            assert(spans_of(before)[k].0 == spans_of(found@)[k].0);
                        } else if k > 0 {
                            assert(spans_of(before)[k - 1].1 <= p);
                        }
                    }
                }
                p = e;
            },
            None => {
                p += 1;
            },
        }
    }
    assert(spans_of(found@) + inlines_from(v@, p as int) =~= spans_of(found@));
    found
}

/// Where the last `c` of `s` stands.
pub open spec fn last_index_of(s: Seq<char>, c: char) -> Option<int>
    decreases s.len(),
{
    if s.len() == 0 {
        None
    } else if s.last() == c {
        Some(s.len() - 1)
    } else {
        last_index_of(s.drop_last(), c)
    }
}

/// The name to answer to: what stands before the last `|` of the name,
/// without the blank space at either end, or the whole name if it has no
/// `|`.
pub open spec fn nick_of(name: Seq<char>) -> Seq<char> {
    match last_index_of(name, '|') {
        Some(bar) => trimmed(name.take(bar)),
        None => name,
    }
}

/// The name to answer to.
pub fn nick(name: &str) -> (short: Vec<char>)
    ensures
        short@ == nick_of(name@),
{
    let v = chars_of(name);
    let mut i: usize = v.len();
    assert(v@.take(i as int) =~= v@);
    while i > 0 && v[i - 1] != '|'
        invariant
            i <= v.len(),
            last_index_of(v@, '|') == last_index_of(v@.take(i as int), '|'),
        decreases i,
    {
        assert(v@.take(i as int).drop_last() =~= v@.take(i - 1));
        i -= 1;
    }
    if i == 0 {
        return v;
    }
    let mut head: Vec<char> = Vec::new();
    push_range(&mut head, &v, 0, i - 1);
    assert(head@ =~= v@.take(i - 1));
    trim(&head)
}

/// How the rolling of the inline rolls of a message ended, and how many
/// draws it made.
pub struct InlineRun {
    /// What stands in the place of each inline roll.
    pub fills: Seq<Seq<char>>,
    /// The failure of the last roll that failed, if any did.
    pub failure: Option<Failure>,
    pub used: nat,
}

/// The rolling of the inline rolls from the `k`-th on. Every one of them is
/// rolled, also after one has failed; a failed one leaves nothing in its
/// place.
pub open spec fn inlines_rolled(
    s: Seq<char>,
    spans: Seq<(int, int)>,
    limits: Limits,
    draws: Seq<nat>,
    k: int,
    run: InlineRun,
) -> InlineRun
    decreases spans.len() - k,
{
    if k < 0 || k >= spans.len() {
        run
    } else {
        let inner = s.subrange(spans[k].0 + 2, spans[k].1 - 2);
        let rest = draws.skip(run.used as int);
        let used = run.used + expression_rolled(inner, limits, rest).used;
        match expression_text(inner, limits, rest) {
            Ok(text) => inlines_rolled(
                s,
                spans,
                limits,
                draws,
                k + 1,
                InlineRun { fills: run.fills.push(text), failure: run.failure, used },
            ),
            Err(failure) => inlines_rolled(
                s,
                spans,
                limits,
                draws,
                k + 1,
                InlineRun { fills: run.fills.push(Seq::empty()), failure: Some(failure), used },
            ),
        }
    }
}

/// How a message with inline rolls is answered, and how many draws that
/// takes.
pub struct AnswerRun {
    pub outcome: Result<Seq<char>, Failure>,
    pub used: nat,
}

/// The answer to a message with inline rolls: the name to answer to, `: `,
/// and the message with each inline roll replaced by its answer. If a roll
/// fails there is no answer.
pub open spec fn inline_rolled(
    name: Seq<char>,
    message: Seq<char>,
    limits: Limits,
    draws: Seq<nat>,
) -> AnswerRun {
    let spans = inlines(message);
    let run = inlines_rolled(
        message,
        spans,
        limits,
        draws,
        0,
        InlineRun { fills: Seq::empty(), failure: None, used: 0 },
    );
    AnswerRun {
        outcome: match run.failure {
            Some(failure) => Err(failure),
            None => Ok(nick_of(name) + seq![':', ' '] + replaced(message, spans, run.fills)),
        },
        used: run.used,
    }
}

/// The failure as a mathematical value.
pub open spec fn failure_of(error: Option<RollError>) -> Option<Failure> {
    match error {
        Some(e) => Some(e@),
        None => None,
    }
}

/// Rolls every inline roll.
fn roll_inlines<S: DrawSource>(
    v: &Vec<char>,
    spans: &Vec<(usize, usize)>,
    limits: &Limits,
    source: &mut S,
) -> (result: (Vec<Vec<char>>, Option<RollError>))
    requires
        in_order(spans_of(spans@), v.len() as int),
        forall|j: int| 0 <= j < spans.len() ==> (#[trigger] spans[j]).0 + 4 < spans[j].1,
    ensures
        drew_on(old(source), final(source)),
        result.0.len() == spans.len(),
        inlines_rolled(
            v@,
            spans_of(spans@),
            *limits,
            fresh_draws(old(source), final(source)),
            0,
            InlineRun { fills: Seq::empty(), failure: None, used: 0 },
        ) == (InlineRun {
            fills: texts_of(result.0@),
            failure: failure_of(result.1),
            used: fresh_draws(old(source), final(source)).len(),
        }),
{
    let ghost s = v@;
    let ghost sp = spans_of(spans@);
    let ghost base = source.drawn();
    let ghost mut made: Seq<nat> = Seq::empty();
    let ghost start = InlineRun { fills: Seq::empty(), failure: None, used: 0 };
    let mut fills: Vec<Vec<char>> = Vec::new();
    let mut failure: Option<RollError> = None;
    let mut k: usize = 0;
    proof {
        assert(base + made =~= base);
        assert(texts_of(fills@) =~= Seq::<Seq<char>>::empty());
    }
    while k < spans.len()
        invariant
            k <= spans.len(),
            s == v@,
            sp == spans_of(spans@),
            in_order(sp, v.len() as int),
            forall|j: int| 0 <= j < spans.len() ==> (#[trigger] spans[j]).0 + 4 < spans[j].1,
            fills.len() == k,
            base == old(source).drawn(),
            source.drawn() == base + made,
            start == (InlineRun { fills: Seq::empty(), failure: None, used: 0 }),
            forall|d: Seq<nat>| #[trigger]
                starts_with(d, made) ==> inlines_rolled(s, sp, *limits, d, 0, start)
                    == inlines_rolled(
                    s,
                    sp,
                    *limits,
                    d,
                    k as int,
                    InlineRun {
                        fills: texts_of(fills@),
                        failure: failure_of(failure),
                        used: made.len(),
                    },
                ),
        decreases spans.len() - k,
    {
        let (a, b) = spans[k];
        assert(sp[k as int] == (a as int, b as int));
        assert(sp[k as int].1 <= v.len());
        let inner = string_of(v, a + 2, b - 2);
        let ghost earlier = made;
        let ghost before = source.drawn();
        let answer = roll_expression_with(inner.as_str(), limits, source);
        let ghost part = source.drawn().skip(before.len() as int);
        proof {
            made = earlier + part;
            assert(source.drawn() =~= before + part);
            assert(source.drawn() =~= base + made);
            lemma_draws_after(base, made);
            assert forall|d: Seq<nat>| #[trigger] starts_with(d, made) implies starts_with(
                d,
                earlier,
            ) && expression_rolled(inner@, *limits, d.skip(earlier.len() as int))
                == expression_rolled(inner@, *limits, part) && expression_text(
                inner@,
                *limits,
                d.skip(earlier.len() as int),
            ) == expression_text(inner@, *limits, part) by {
                lemma_draws_go_on(d, earlier, part);
                lemma_same_draws_same_answer(inner@, *limits, part, d.skip(earlier.len() as int));
            }
        }
        let ghost done = texts_of(fills@);
        match answer {
            Ok(text) => {
                let chars = chars_of(text.as_str());
                fills.push(chars);
                proof {
                    assert(texts_of(fills@) =~= done.push(text@));
                }
            },
            Err(error) => {
                fills.push(Vec::new());
                failure = Some(error);
                proof {
                    assert(texts_of(fills@) =~= done.push(Seq::empty()));
                }
            },
        }
        k += 1;
    }
    proof {
        lemma_draws_after(base, made);
    }
    (fills, failure)
}

/// Rolls the inline rolls of `message`, written as `[[2d20>15]]`, and
/// answers with the message, each inline roll replaced by its answer.
pub fn inline_rolls<S: DrawSource>(name: &str, message: &str, limits: &Limits, source: &mut S) -> (result:
    Result<String, RollError>)
    ensures
        drew_on(old(source), final(source)),
        inline_rolled(name@, message@, *limits, fresh_draws(old(source), final(source))).used
            == fresh_draws(old(source), final(source)).len(),
        crate::rolls::text_agrees(
            result,
            inline_rolled(name@, message@, *limits, fresh_draws(old(source), final(source))).outcome,
        ),
{
    let v = chars_of(message);
    let spans = find_inlines(&v);
    let (fills, failure) = roll_inlines(&v, &spans, limits, source);
    match failure {
        Some(error) => Err(error),
        None => {
            let mut out: Vec<char> = nick(name);
            let ghost head = out@;
            out.push(':');
            out.push(' ');
            let body = replace_spans(&v, &spans, &fills);
            push_range(&mut out, &body, 0, body.len());
            proof {
                assert(body@.subrange(0, body.len() as int) =~= body@);
                assert(out@ =~= head + seq![':', ' '] + body@);
                assert(out@.subrange(0, out.len() as int) =~= out@);
            }
            Ok(string_of(&out, 0, out.len()))
        },
    }
}

} // verus!
