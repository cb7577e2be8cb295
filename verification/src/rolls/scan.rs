//! Finding the dice terms in a text, and putting other text in their place.
//!
//! A dice term starts at the start of the text or after one of `+ - (` and
//! a blank. It is a number, a `d`, and then everything up to the end of the
//! text or the next of `+ - * / )` and a blank.

use crate::text::{chars_of, digit, digit_run, is_digit, lemma_digit_run_inside, push_range, spans_of};
use vstd::prelude::*;

verus! {

/// A character that a dice term may follow.
pub open spec fn is_lead(c: char) -> bool {
    c == '+' || c == '-' || c == ' ' || c == '('
}

/// A character that ends a dice term.
pub open spec fn is_stop(c: char) -> bool {
    c == '+' || c == '-' || c == '*' || c == '/' || c == ' ' || c == ')'
}

fn lead(c: char) -> (b: bool)
    ensures
        b == is_lead(c),
{
    c == '+' || c == '-' || c == ' ' || c == '('
}

fn stop(c: char) -> (b: bool)
    ensures
        b == is_stop(c),
{
    c == '+' || c == '-' || c == '*' || c == '/' || c == ' ' || c == ')'
}

/// How many characters that end no term stand at `i` and directly after it.
pub open spec fn body_run(s: Seq<char>, i: int) -> nat
    decreases s.len() - i,
{
    if 0 <= i < s.len() && !is_stop(s[i]) {
        1 + body_run(s, i + 1)
    } else {
        0
    }
}

/// A dice term starts at `p`: `p` is the start of the text or follows a
/// lead, and at `p` stand a number, a `d` and one more character at least.
pub open spec fn term_starts(s: Seq<char>, p: int) -> bool {
    let d = p + digit_run(s, p);
    &&& 0 <= p < s.len()
    &&& (p == 0 || is_lead(s[p - 1]))
    &&& is_digit(s[p])
    &&& d + 1 < s.len()
    &&& s[d] == 'd'
    &&& !is_stop(s[d + 1])
}

/// Where the dice term that starts at `p` ends: the position after its last
/// character.
pub open spec fn term_end(s: Seq<char>, p: int) -> int {
    p + digit_run(s, p) + 1 + body_run(s, p + digit_run(s, p) + 1)
}

/// Where the first dice term at `from` or later starts.
pub open spec fn next_term(s: Seq<char>, from: int) -> Option<int>
    decreases s.len() - from,
{
    if from < 0 || from >= s.len() {
        None
    } else if term_starts(s, from) {
        Some(from)
    } else {
        next_term(s, from + 1)
    }
}

proof fn lemma_body_run_inside(s: Seq<char>, i: int)
    requires
        0 <= i <= s.len(),
    ensures
        i + body_run(s, i) <= s.len(),
    decreases s.len() - i,
{
    if i < s.len() && !is_stop(s[i]) {
        lemma_body_run_inside(s, i + 1);
    }
}

/// A term ends after its start and inside the text.
pub proof fn lemma_term_end_inside(s: Seq<char>, p: int)
    requires
        term_starts(s, p),
    ensures
        p + 2 < term_end(s, p) <= s.len(),
{
    lemma_digit_run_inside(s, p);
    lemma_body_run_inside(s, p + digit_run(s, p) + 1);
}

/// The next term, if there is one, starts at `from` or later.
pub proof fn lemma_next_term_starts(s: Seq<char>, from: int)
    ensures
        next_term(s, from) matches Some(p) ==> from <= p && term_starts(s, p),
    decreases s.len() - from,
{
    if 0 <= from < s.len() && !term_starts(s, from) {
        lemma_next_term_starts(s, from + 1);
    }
}

/// The dice terms of `s` from `from` on, in the order of the text, each as
/// the pair of its first position and the position after its last. The
/// search for the next term starts where the last one ended, so that the
/// character that ended one term can lead the next.
pub open spec fn terms_from(s: Seq<char>, from: int) -> Seq<(int, int)>
    decreases s.len() - from,
    via terms_from_ends
{
    match next_term(s, from) {
        None => Seq::empty(),
        Some(p) => seq![(p, term_end(s, p))] + terms_from(s, term_end(s, p)),
    }
}

#[via_fn]
proof fn terms_from_ends(s: Seq<char>, from: int) {
    lemma_next_term_starts(s, from);
    if let Some(p) = next_term(s, from) {
        lemma_term_end_inside(s, p);
    }
}

/// The dice terms of `s`.
pub open spec fn terms(s: Seq<char>) -> Seq<(int, int)> {
    terms_from(s, 0)
}

/// The stretches follow each other inside a text of `len` characters: each
/// ends where it starts or later, and the next starts where it ends or
/// later.
pub open spec fn in_order(spans: Seq<(int, int)>, len: int) -> bool {
    &&& forall|k: int| 0 <= k < spans.len() ==> 0 <= (#[trigger] spans[k]).0 <= spans[k].1 <= len
    &&& forall|k: int| 0 < k < spans.len() ==> spans[k - 1].1 <= (#[trigger] spans[k]).0
}

/// Whether a dice term starts at `p`, and where it ends.
fn term_at(v: &Vec<char>, p: usize) -> (end: Option<usize>)
    requires
        p < v.len(),
    ensures
        end is Some <==> term_starts(v@, p as int),
        end matches Some(e) ==> e == term_end(v@, p as int) && p < e <= v.len(),
{
    let n: usize = v.len();
    if !(p == 0 || lead(v[p - 1])) {
        return None;
    }
    if !digit(v[p]) {
        return None;
    }
    let mut d: usize = p + 1;
    while d < n && digit(v[d])
        invariant
            n == v.len(),
            p < d <= n,
            digit_run(v@, p as int) == (d - p) + digit_run(v@, d as int),
        decreases n - d,
    {
        d += 1;
    }
    if d >= n - 1 || v[d] != 'd' || stop(v[d + 1]) {
        return None;
    }
    let mut e: usize = d + 2;
    while e < n && !stop(v[e])
        invariant
            n == v.len(),
            d + 1 < e <= n,
            body_run(v@, d + 1) == (e - d - 1) + body_run(v@, e as int),
        decreases n - e,
    {
        e += 1;
    }
    Some(e)
}

/// Finds the dice terms of `v`.
pub fn find_terms(v: &Vec<char>) -> (found: Vec<(usize, usize)>)
    ensures
        spans_of(found@) == terms(v@),
        in_order(spans_of(found@), v.len() as int),
{
    let n: usize = v.len();
    let mut found: Vec<(usize, usize)> = Vec::new();
    let mut p: usize = 0;
    while p < n
        invariant
            n == v.len(),
            p <= n,
            spans_of(found@) + terms_from(v@, p as int) == terms(v@),
            in_order(spans_of(found@), p as int),
        decreases n - p,
    {
        match term_at(v, p) {
            Some(e) => {
                let ghost before = found@;
                found.push((p, e));
                proof {
                    assert(spans_of(found@) =~= spans_of(before).push((p as int, e as int)));
                    assert(spans_of(found@) + terms_from(v@, e as int) =~= spans_of(before)
                        + terms_from(v@, p as int));
                    assert forall|k: int| 0 < k < found@.len() implies spans_of(found@)[k - 1].1 <= (
                    #[trigger] spans_of(found@)[k]).0 by {
                        if k < before.len() {
                            assert(spans_of(before)[k].0 == spans_of(found@)[k].0);
                        } else if k > 0 {
                            assert(spans_of(before)[k - 1].1 <= p);
                        }
                    }
                }
                p = e;
            },
            None => {
                p += 1;
            },
        }
    }
    assert(spans_of(found@) + terms_from(v@, p as int) =~= spans_of(found@));
    found
}

/// Whether the text holds a dice term.
pub fn has_dice_term(text: &str) -> (found: bool)
    ensures
        found == (terms(text@).len() > 0),
{
    let v = chars_of(text);
    let found = find_terms(&v);
    found.len() > 0
}

// ---------------------------------------------------------------------
// Putting other text in the place of the terms
// ---------------------------------------------------------------------
/// Where the text between the terms before the `k`-th and that term starts.
pub open spec fn gap_start(spans: Seq<(int, int)>, k: int) -> int {
    if k <= 0 {
        0
    } else {
        spans[k - 1].1
    }
}

/// The text up to the end of the `k`-th stretch, with `fills[j]` in the place
/// of the `j`-th stretch.
pub open spec fn replaced_upto(
    s: Seq<char>,
    spans: Seq<(int, int)>,
    fills: Seq<Seq<char>>,
    k: int,
) -> Seq<char>
    decreases k,
{
    if k <= 0 {
        Seq::empty()
    } else {
        replaced_upto(s, spans, fills, k - 1) + s.subrange(gap_start(spans, k - 1), spans[k - 1].0)
            + fills[k - 1]
    }
}

/// The text with `fills[j]` in the place of the `j`-th stretch, and all
/// else as it was.
pub open spec fn replaced(s: Seq<char>, spans: Seq<(int, int)>, fills: Seq<Seq<char>>) -> Seq<
    char,
> {
    replaced_upto(s, spans, fills, spans.len() as int) + s.subrange(
        gap_start(spans, spans.len() as int),
        s.len() as int,
    )
}

/// The texts that the vectors hold.
pub open spec fn texts_of(fills: Seq<Vec<char>>) -> Seq<Seq<char>> {
    fills.map_values(|fill: Vec<char>| fill@)
}

/// Puts `fills[j]` in the place of the `j`-th stretch of `v`.
pub(crate) fn replace_spans(v: &Vec<char>, spans: &Vec<(usize, usize)>, fills: &Vec<Vec<char>>) -> (out:
    Vec<char>)
    requires
        in_order(spans_of(spans@), v.len() as int),
        fills.len() == spans.len(),
    ensures
        out@ == replaced(v@, spans_of(spans@), texts_of(fills@)),
{
    let ghost s = v@;
    let ghost stretches = spans_of(spans@);
    let ghost texts = texts_of(fills@);
    let mut out: Vec<char> = Vec::new();
    let mut from: usize = 0;
    let mut k: usize = 0;
    while k < spans.len()
        invariant
            k <= spans.len(),
            s == v@,
            stretches == spans_of(spans@),
            texts == texts_of(fills@),
            fills.len() == spans.len(),
            in_order(stretches, v.len() as int),
            from == gap_start(stretches, k as int),
            from <= v.len(),
            out@ == replaced_upto(s, stretches, texts, k as int),
        decreases spans.len() - k,
    {
        let (a, b) = spans[k];
        proof {
            assert(stretches[k as int] == (a as int, b as int));
            if k > 0 {
                assert(stretches[k - 1].1 <= stretches[k as int].0);
            }
            assert(texts[k as int] == fills@[k as int]@);
        }
        let ghost before = out@;
        push_range(&mut out, v, from, a);
        let fill = &fills[k];
        push_range(&mut out, fill, 0, fill.len());
        proof {
            assert(fill@.subrange(0, fill.len() as int) =~= fill@);
            assert(out@ =~= before + s.subrange(from as int, a as int) + texts[k as int]);
        }
        from = b;
        k += 1;
    }
    push_range(&mut out, v, from, v.len());
    out
}

} // verus!
