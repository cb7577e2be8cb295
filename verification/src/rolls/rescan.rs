//! Nothing that is written in the place of a dice term is read as a dice
//! term again: the text that comes out of the replacing holds no term.
//!
//! So to scan the text once from left to right, going on after each term
//! where the term ended, is the same as to scan and replace over and over
//! until a scan finds nothing.

use crate::limits::Limits;
use crate::rolls::dice::{listed, shown, shown_total, DiceRollView};
use crate::rolls::laws::lemma_one_roll_for_each_term;
use crate::rolls::options::OptionsView;
use crate::rolls::scan::{
    body_run, gap_start, is_lead, is_stop, lemma_next_term_starts, lemma_term_end_inside,
    next_term, replaced, replaced_upto, term_end, term_starts, terms, terms_from,
};
use crate::rolls::{expression_rolled, sums_of};
use crate::text::{
    decimal, digit_run, digits_of, is_digit, lemma_digit_run_inside, lemma_digits_round_trip,
};
use vstd::prelude::*;

verus! {

/// The text holds no `d`.
pub open spec fn has_no_d(s: Seq<char>) -> bool {
    forall|i: int| 0 <= i < s.len() ==> #[trigger] s[i] != 'd'
}

/// The text is empty or starts with a character that ends a term.
pub open spec fn starts_with_stop(s: Seq<char>) -> bool {
    s.len() == 0 || is_stop(s[0])
}

/// What makes a term start at `p` apart from what stands before it: a
/// number, a `d` and one more character at least.
pub open spec fn body_starts(s: Seq<char>, p: int) -> bool {
    let d = p + digit_run(s, p);
    &&& 0 <= p < s.len()
    &&& is_digit(s[p])
    &&& d + 1 < s.len()
    &&& s[d] == 'd'
    &&& !is_stop(s[d + 1])
}

proof fn lemma_digit_run_stops(s: Seq<char>, p: int, j: int)
    requires
        0 <= p <= j < s.len(),
        !is_digit(s[j]),
    ensures
        p + digit_run(s, p) <= j,
    decreases j - p,
{
    if p < j && is_digit(s[p]) {
        lemma_digit_run_stops(s, p + 1, j);
    }
}

proof fn lemma_digit_run_digits(s: Seq<char>, p: int, i: int)
    requires
        0 <= p <= i < p + digit_run(s, p),
    ensures
        i < s.len(),
        is_digit(s[i]),
    decreases i - p,
{
    if i > p {
        lemma_digit_run_digits(s, p + 1, i);
    }
}

/// Two texts that agree on a stretch have the same run of digits in it, if
/// the run ends inside the stretch.
proof fn lemma_digit_run_same(a: Seq<char>, pa: int, b: Seq<char>, pb: int, w: int)
    requires
        0 <= pa,
        0 <= pb,
        0 <= w,
        pa + w <= a.len(),
        pb + w <= b.len(),
        a.subrange(pa, pa + w) == b.subrange(pb, pb + w),
        digit_run(a, pa) < w,
    ensures
        digit_run(b, pb) == digit_run(a, pa),
    decreases w,
{
    assert(a[pa] == a.subrange(pa, pa + w)[0]);
    assert(b[pb] == b.subrange(pb, pb + w)[0]);
    if is_digit(a[pa]) {
        assert(a.subrange(pa + 1, pa + w) =~= a.subrange(pa, pa + w).subrange(1, w));
        assert(b.subrange(pb + 1, pb + w) =~= b.subrange(pb, pb + w).subrange(1, w));
        lemma_digit_run_same(a, pa + 1, b, pb + 1, w - 1);
    }
}

/// Two texts that agree on a stretch start the body of a term at the same
/// place in it, if that start lies inside the stretch.
proof fn lemma_body_starts_same(a: Seq<char>, pa: int, b: Seq<char>, pb: int, w: int)
    requires
        0 <= pa,
        0 <= pb,
        0 <= w,
        pa + w <= a.len(),
        pb + w <= b.len(),
        a.subrange(pa, pa + w) == b.subrange(pb, pb + w),
        body_starts(a, pa),
        digit_run(a, pa) + 1 < w,
    ensures
        body_starts(b, pb),
{
    lemma_digit_run_same(a, pa, b, pb, w);
    let r = digit_run(a, pa) as int;
    assert(a[pa] == a.subrange(pa, pa + w)[0]);
    assert(b[pb] == b.subrange(pb, pb + w)[0]);
    assert(a[pa + r] == a.subrange(pa, pa + w)[r]);
    assert(b[pb + r] == b.subrange(pb, pb + w)[r]);
    assert(a[pa + r + 1] == a.subrange(pa, pa + w)[r + 1]);
    assert(b[pb + r + 1] == b.subrange(pb, pb + w)[r + 1]);
}

/// Before the first term from `from` on, no term starts.
proof fn lemma_no_term_before_next(s: Seq<char>, from: int, p: int)
    requires
        0 <= from <= p,
        match next_term(s, from) {
            Some(first) => p < first,
            None => true,
        },
    ensures
        !term_starts(s, p),
    decreases p - from,
{
    if from < s.len() {
        if from < p {
            if term_starts(s, from) {
            } else {
                lemma_no_term_before_next(s, from + 1, p);
            }
        }
    }
}

/// The terms of a text, one after the other: the `k`-th is the first term
/// from the end of the one before it, and after the last there is none.
proof fn lemma_terms_one_by_one(s: Seq<char>, k: int)
    requires
        0 <= k <= terms(s).len(),
    ensures
        0 <= gap_start(terms(s), k) <= s.len(),
        terms_from(s, gap_start(terms(s), k)) == terms(s).skip(k),
        k > 0 ==> gap_start(terms(s), k) == s.len() || is_stop(s[gap_start(terms(s), k)]),
        k < terms(s).len() ==> next_term(s, gap_start(terms(s), k)) == Some(terms(s)[k].0)
            && terms(s)[k].1 == term_end(s, terms(s)[k].0) && term_starts(s, terms(s)[k].0)
            && gap_start(terms(s), k) <= terms(s)[k].0,
        k == terms(s).len() ==> next_term(s, gap_start(terms(s), k)) is None,
    decreases k,
{
    let spans = terms(s);
    if k == 0 {
        assert(spans.skip(0) =~= spans);
    } else {
        lemma_terms_one_by_one(s, k - 1);
        let from = gap_start(spans, k - 1);
        let first = spans[k - 1].0;
        assert(spans.skip(k - 1)[0] == spans[k - 1]);
        assert(terms_from(s, term_end(s, first)) =~= spans.skip(k - 1).skip(1));
        assert(spans.skip(k - 1).skip(1) =~= spans.skip(k));
        lemma_term_end_inside(s, first);
        lemma_body_run_ends_at_stop(s, first + digit_run(s, first) + 1);
    }
    let here = gap_start(spans, k);
    lemma_next_term_starts(s, here);
    if k < spans.len() {
        assert(spans.skip(k)[0] == spans[k]);
    } else {
        assert(spans.skip(k).len() == 0);
    }
}

proof fn lemma_body_run_ends_at_stop(s: Seq<char>, i: int)
    requires
        0 <= i <= s.len(),
    ensures
        i + body_run(s, i) == s.len() || is_stop(s[i + body_run(s, i)]),
    decreases s.len() - i,
{
    if i < s.len() && !is_stop(s[i]) {
        lemma_body_run_ends_at_stop(s, i + 1);
    }
}

/// No term starts in the first `n` characters of `x`, whatever follows
/// them, so long as it is empty or starts with a character that ends a term.
pub open spec fn sealed(x: Seq<char>) -> bool {
    forall|rest: Seq<char>, p: int|
        starts_with_stop(rest) && 0 <= p < x.len() ==> !#[trigger] term_starts(x + rest, p)
}

/// A sealed text stays sealed when a stretch without a term and then a text
/// without a `d` are written after it.
///
/// The stretch is `s[from..first]`, where `first` is where the first term
/// of `s` from `from` on starts, and `from` is the start of `s` or the end
/// of a term.
proof fn lemma_sealed_grows(x: Seq<char>, s: Seq<char>, from: int, first: int, fill: Seq<char>)
    requires
        sealed(x),
        0 <= from <= first < s.len(),
        next_term(s, from) == Some(first),
        term_starts(s, first),
        has_no_d(fill),
        from == 0 ==> x.len() == 0,
        from > 0 ==> is_stop(s[from]),
    ensures
        sealed(x + s.subrange(from, first) + fill),
{
    let gap = s.subrange(from, first);
    let grown = x + gap + fill;
    assert forall|rest: Seq<char>, p: int| starts_with_stop(rest) && 0 <= p < grown.len() implies !
    #[trigger] term_starts(grown + rest, p) by {
        let t = grown + rest;
        if term_starts(t, p) {
            let d = p + digit_run(t, p);
            if p < x.len() {
                // What follows `x` starts with a character that ends a term.
                let follows = gap + fill + rest;
                assert(t =~= x + follows);
                assert(from > 0);
                assert(gap.len() > 0) by {
                    assert(!is_digit(s[from]));
                }
                assert(follows[0] == s[from]);
                assert(starts_with_stop(follows));
                assert(!term_starts(x + follows, p));
            } else if p < x.len() + gap.len() {
                // The start lies in the stretch, and so does all that makes it one.
                let edge = x.len() + gap.len() - 1;
                assert(t[edge] == s[first - 1]);
                assert(is_lead(s[first - 1]));
                lemma_digit_run_stops(t, p, edge);
                assert(d <= edge);
                assert(d + 1 <= edge) by {
                    if d == edge {
                        assert(t[d] != 'd');
                    }
                }
                let q = p - x.len() + from;
                let w = edge + 1 - p;
                assert(t.subrange(p, p + w) =~= s.subrange(q, q + w)) by {
                    assert forall|i: int| 0 <= i < w implies #[trigger] t.subrange(p, p + w)[i]
                        == s.subrange(q, q + w)[i] by {
                        assert(t[p + i] == gap[p + i - x.len()]);
                    }
                }
                if d + 1 == edge {
                    // The character after the `d` is the lead of the term to come.
                    lemma_digit_run_same(t, p, s, q, w);
                    assert(s[q + digit_run(s, q)] == t[d]) by {
                        assert(t.subrange(p, p + w)[d - p] == s.subrange(q, q + w)[d - p]);
                    }
                    assert(s[q + digit_run(s, q) + 1] == t[d + 1]) by {
                        assert(t.subrange(p, p + w)[d + 1 - p] == s.subrange(q, q + w)[d + 1 - p]);
                    }
                    assert(s[q] == t[p]) by {
                        assert(t.subrange(p, p + w)[0] == s.subrange(q, q + w)[0]);
                    }
                    assert(body_starts(s, q));
                } else {
                    lemma_body_starts_same(t, p, s, q, w);
                }
                if p > x.len() {
                    assert(t[p - 1] == s[q - 1]) by {
                        assert(t[p - 1] == gap[p - 1 - x.len()]);
                    }
                } else if from > 0 {
                    assert(t[p] == s[from]);
                }
                assert(term_starts(s, q));
                lemma_no_term_before_next(s, from, q);
            } else {
                // The start lies in what was written in the place of the term.
                let end = grown.len() as int;
                if d < end {
                    assert(t[d] == fill[d - x.len() - gap.len()]);
                } else {
                    assert(d < t.len());
                    if d > end {
                        lemma_digit_run_digits(t, p, end);
                    }
                    assert(t[end] == rest[0]);
                    if d == end {
                        assert(is_stop(t[d]));
                    }
                }
            }
        }
    }
}

/// What the replacing has written up to the `k`-th term is sealed.
proof fn lemma_replaced_upto_sealed(s: Seq<char>, fills: Seq<Seq<char>>, k: int)
    requires
        0 <= k <= terms(s).len(),
        fills.len() == terms(s).len(),
        forall|j: int| 0 <= j < fills.len() ==> has_no_d(#[trigger] fills[j]),
    ensures
        sealed(replaced_upto(s, terms(s), fills, k)),
        k == 0 ==> replaced_upto(s, terms(s), fills, k).len() == 0,
    decreases k,
{
    if k > 0 {
        let spans = terms(s);
        lemma_replaced_upto_sealed(s, fills, k - 1);
        lemma_terms_one_by_one(s, k - 1);
        let from = gap_start(spans, k - 1);
        let first = spans[k - 1].0;
        lemma_sealed_grows(replaced_upto(s, spans, fills, k - 1), s, from, first, fills[k - 1]);
    }
}

/// The text that comes out of the replacing holds no dice term, if none of
/// the texts written in the place of the terms holds a `d`.
pub proof fn lemma_no_term_is_left(s: Seq<char>, fills: Seq<Seq<char>>)
    requires
        fills.len() == terms(s).len(),
        forall|j: int| 0 <= j < fills.len() ==> has_no_d(#[trigger] fills[j]),
    ensures
        terms(replaced(s, terms(s), fills)).len() == 0,
{
    let spans = terms(s);
    let n = spans.len() as int;
    let x = replaced_upto(s, spans, fills, n);
    let from = gap_start(spans, n);
    lemma_replaced_upto_sealed(s, fills, n);
    lemma_terms_one_by_one(s, n);
    let rest = s.subrange(from, s.len() as int);
    let t = replaced(s, spans, fills);
    assert(t == x + rest);
    assert forall|p: int| 0 <= p < t.len() implies !term_starts(t, p) by {
        if term_starts(t, p) {
            if n == 0 {
                assert(t =~= s);
                lemma_no_term_before_next(s, 0, p);
            } else if p < x.len() {
                assert(rest.len() > 0 ==> rest[0] == s[from]);
                assert(starts_with_stop(rest));
            } else {
                let q = p - x.len() + from;
                let w = t.len() - p;
                assert(t.subrange(p, p + w) =~= s.subrange(q, q + w)) by {
                    assert forall|i: int| 0 <= i < w implies #[trigger] t.subrange(p, p + w)[i]
                        == s.subrange(q, q + w)[i] by {
                        assert(t[p + i] == rest[p + i - x.len()]);
                    }
                }
                lemma_digit_run_inside(t, p);
                lemma_body_starts_same(t, p, s, q, w);
                if p > x.len() {
                    assert(t[p - 1] == rest[p - 1 - x.len()]);
                } else {
                    assert(t[p] == rest[0]);
                    assert(is_stop(s[from]));
                }
                assert(term_starts(s, q));
                lemma_no_term_before_next(s, from, q);
            }
        }
    }
    lemma_none_starts_none_found(t, 0);
}

proof fn lemma_none_starts_none_found(s: Seq<char>, from: int)
    requires
        forall|p: int| 0 <= p < s.len() ==> !term_starts(s, p),
    ensures
        next_term(s, from) is None,
    decreases s.len() - from,
{
    if 0 <= from < s.len() {
        lemma_none_starts_none_found(s, from + 1);
    }
}

/// A number in decimal holds no `d`.
pub proof fn lemma_decimal_has_no_d(n: int)
    ensures
        has_no_d(decimal(n)),
{
    if n < 0 {
        lemma_digits_round_trip((-n) as nat);
        let digits = digits_of((-n) as nat);
        assert forall|i: int| 0 <= i < decimal(n).len() implies #[trigger] decimal(n)[i] != 'd' by {
            if i > 0 {
                assert(is_digit(digits[i - 1]));
            }
        }
    } else {
        lemma_digits_round_trip(n as nat);
        let digits = digits_of(n as nat);
        assert forall|i: int| 0 <= i < decimal(n).len() implies #[trigger] decimal(n)[i] != 'd' by {
            assert(is_digit(digits[i]));
        }
    }
}

proof fn lemma_listed_has_no_d(options: OptionsView, rolls: Seq<int>)
    ensures
        has_no_d(listed(options, rolls)),
    decreases rolls.len(),
{
    if rolls.len() > 0 {
        lemma_decimal_has_no_d(rolls.last());
        let one = shown_total(options, rolls.last());
        assert(has_no_d(one)) by {
            let number = decimal(rolls.last());
            assert forall|i: int| 0 <= i < one.len() implies #[trigger] one[i] != 'd' by {
                if options.keeps(rolls.last()) {
                } else if 2 <= i < 2 + number.len() {
                    assert(one[i] == number[i - 2]);
                }
            }
        }
        if rolls.len() == 1 {
            assert(rolls[0] == rolls.last());
        } else {
            lemma_listed_has_no_d(options, rolls.drop_last());
            let before = listed(options, rolls.drop_last());
            let all = listed(options, rolls);
            assert forall|i: int| 0 <= i < all.len() implies #[trigger] all[i] != 'd' by {
                if i < before.len() {
                    assert(all[i] == before[i]);
                } else if i >= before.len() + 2 {
                    assert(all[i] == one[i - before.len() - 2]);
                }
            }
        }
    }
}

/// A roll as shown holds no `d`.
pub proof fn lemma_shown_has_no_d(roll: DiceRollView)
    ensures
        has_no_d(shown(roll)),
{
    lemma_listed_has_no_d(roll.options, roll.rolls);
    let inner = listed(roll.options, roll.rolls);
    assert forall|i: int| 0 <= i < shown(roll).len() implies #[trigger] shown(roll)[i] != 'd' by {
        if 1 <= i <= inner.len() {
            assert(shown(roll)[i] == inner[i - 1]);
        }
    }
}

proof fn lemma_sums_length(rolls: Seq<DiceRollView>)
    ensures
        sums_of(rolls) matches Some(sums) ==> sums.len() == rolls.len(),
    decreases rolls.len(),
{
    if rolls.len() > 0 {
        lemma_sums_length(rolls.drop_last());
    }
}

/// Neither of the two texts of a rolled expression holds a dice term:
/// nothing that was written in the place of a term is read as a term again.
pub proof fn lemma_written_texts_hold_no_term(text: Seq<char>, limits: Limits, draws: Seq<nat>)
    ensures
        expression_rolled(text, limits, draws).outcome matches Ok(rolled) ==> terms(
            rolled.dice,
        ).len() == 0 && terms(rolled.vals).len() == 0,
{
    if let Ok(rolled) = expression_rolled(text, limits, draws).outcome {
        lemma_one_roll_for_each_term(text, limits, draws);
        lemma_sums_length(rolled.rolls);
        let sums = sums_of(rolled.rolls)->0;
        let shown_rolls = rolled.rolls.map_values(|roll: DiceRollView| shown(roll));
        let shown_sums = sums.map_values(|sum: int| decimal(sum));
        assert forall|j: int| 0 <= j < shown_rolls.len() implies has_no_d(
            #[trigger] shown_rolls[j],
        ) by {
            lemma_shown_has_no_d(rolled.rolls[j]);
        }
        assert forall|j: int| 0 <= j < shown_sums.len() implies has_no_d(#[trigger] shown_sums[j]) by {
            lemma_decimal_has_no_d(sums[j]);
        }
        lemma_no_term_is_left(text, shown_rolls);
        lemma_no_term_is_left(text, shown_sums);
    }
}

// ---------------------------------------------------------------------
// Scanning over and over
// ---------------------------------------------------------------------
/// The text with `fill` in the place of its first dice term, or the text
/// as it is if it holds no term.
pub open spec fn first_replaced(s: Seq<char>, fill: Seq<char>) -> Seq<char> {
    match next_term(s, 0) {
        None => s,
        Some(p) => s.subrange(0, p) + fill + s.subrange(term_end(s, p), s.len() as int),
    }
}

/// The text after `k` rounds, each of which scans the text from its start
/// and writes the next of `fills` in the place of the first term it finds.
pub open spec fn rescanned(s: Seq<char>, fills: Seq<Seq<char>>, k: int) -> Seq<char>
    decreases k,
{
    if k <= 0 {
        s
    } else {
        first_replaced(rescanned(s, fills, k - 1), fills[k - 1])
    }
}

/// Two texts with the same end have the same runs in it.
proof fn lemma_runs_in_same_end(t: Seq<char>, p: int, s: Seq<char>, q: int)
    requires
        0 <= p <= t.len(),
        0 <= q <= s.len(),
        t.skip(p) == s.skip(q),
    ensures
        digit_run(t, p) == digit_run(s, q),
        body_run(t, p) == body_run(s, q),
    decreases t.len() - p,
{
    assert(t.skip(p).len() == t.len() - p);
    assert(s.skip(q).len() == s.len() - q);
    if p < t.len() {
        assert(t[p] == t.skip(p)[0]);
        assert(s[q] == s.skip(q)[0]);
        assert(t.skip(p + 1) =~= t.skip(p).skip(1));
        assert(s.skip(q + 1) =~= s.skip(q).skip(1));
        lemma_runs_in_same_end(t, p + 1, s, q + 1);
    }
}

/// After a sealed text and a character that ends a term, or at the start of
/// a text, terms start and end where they do in the text alone.
proof fn lemma_terms_in_same_end(x: Seq<char>, s: Seq<char>, from: int, p: int)
    requires
        0 <= from <= s.len(),
        from == 0 ==> x.len() == 0,
        from > 0 ==> from == s.len() || is_stop(s[from]),
        x.len() <= p,
    ensures
        term_starts(x + s.skip(from), p) <==> term_starts(s, p - x.len() + from),
        term_end(x + s.skip(from), p) == term_end(s, p - x.len() + from) + x.len() - from,
{
    let t = x + s.skip(from);
    let q = p - x.len() + from;
    if p < t.len() {
        assert(t.skip(p) =~= s.skip(q));
        lemma_runs_in_same_end(t, p, s, q);
        let r = digit_run(t, p) as int;
        lemma_digit_run_inside(t, p);
        assert(t[p] == s[q]);
        if p + r < t.len() {
            assert(t[p + r] == s[q + r]);
            assert(t.skip(p + r + 1) =~= s.skip(q + r + 1));
            lemma_runs_in_same_end(t, p + r + 1, s, q + r + 1);
            if p + r + 1 < t.len() {
                assert(t[p + r + 1] == s[q + r + 1]);
            }
        }
        if p > x.len() {
            assert(t[p - 1] == s[q - 1]);
        } else if from > 0 {
            assert(!is_digit(s[from]));
        }
    } else {
        assert(t.skip(t.len() as int) =~= s.skip(s.len() as int));
        lemma_runs_in_same_end(t, t.len() as int, s, s.len() as int);
        assert(digit_run(t, p) == 0 && digit_run(s, q) == 0);
        assert(body_run(t, p + 1) == 0 && body_run(s, q + 1) == 0);
    }
}

proof fn lemma_first_term_is(s: Seq<char>, from: int, first: int)
    requires
        0 <= from <= first,
        term_starts(s, first),
        forall|p: int| from <= p < first ==> !term_starts(s, p),
    ensures
        next_term(s, from) == Some(first),
    decreases first - from,
{
    if from < first {
        lemma_first_term_is(s, from + 1, first);
    }
}

/// After `k` rounds of scanning and replacing, the text is what the one
/// scan from left to right has written up to the `k`-th term, and then the
/// text as it was from the end of that term on.
proof fn lemma_rescanned_upto(s: Seq<char>, fills: Seq<Seq<char>>, k: int)
    requires
        0 <= k <= terms(s).len(),
        fills.len() == terms(s).len(),
        forall|j: int| 0 <= j < fills.len() ==> has_no_d(#[trigger] fills[j]),
    ensures
        rescanned(s, fills, k) == replaced_upto(s, terms(s), fills, k) + s.skip(
            gap_start(terms(s), k),
        ),
    decreases k,
{
    let spans = terms(s);
    if k == 0 {
        assert(s.skip(0) =~= s);
        assert(replaced_upto(s, spans, fills, 0) + s =~= s);
    } else {
        lemma_rescanned_upto(s, fills, k - 1);
        lemma_replaced_upto_sealed(s, fills, k - 1);
        lemma_terms_one_by_one(s, k - 1);
        let x = replaced_upto(s, spans, fills, k - 1);
        let from = gap_start(spans, k - 1);
        let (a, b) = spans[k - 1];
        let t = x + s.skip(from);
        let first = x.len() + a - from;
        lemma_term_end_inside(s, a);
        lemma_terms_in_same_end(x, s, from, first);
        assert forall|p: int| 0 <= p < first implies !term_starts(t, p) by {
            if p < x.len() {
                assert(from > 0);
                assert(s.skip(from).len() > 0 ==> s.skip(from)[0] == s[from]);
                assert(starts_with_stop(s.skip(from)));
            } else {
                lemma_terms_in_same_end(x, s, from, p);
                lemma_no_term_before_next(s, from, p - x.len() + from);
            }
        }
        lemma_first_term_is(t, 0, first);
        assert(t.subrange(0, first) =~= x + s.subrange(from, a));
        assert(t.subrange(first + b - a, t.len() as int) =~= s.skip(b));
        assert(first_replaced(t, fills[k - 1]) =~= replaced_upto(s, spans, fills, k) + s.skip(b));
    }
}

/// To scan the text once from left to right, going on after each term
/// where it ended, is to scan and replace over and over: after as many
/// rounds as the text has terms, the text is the same, and a further round
/// finds no term and changes nothing.
pub proof fn lemma_rescanning_is_replacing(s: Seq<char>, fills: Seq<Seq<char>>, more: Seq<char>)
    requires
        fills.len() == terms(s).len(),
        forall|j: int| 0 <= j < fills.len() ==> has_no_d(#[trigger] fills[j]),
    ensures
        rescanned(s, fills, terms(s).len() as int) == replaced(s, terms(s), fills),
        first_replaced(replaced(s, terms(s), fills), more) == replaced(s, terms(s), fills),
{
    let n = terms(s).len() as int;
    lemma_rescanned_upto(s, fills, n);
    lemma_terms_one_by_one(s, n);
    assert(s.skip(gap_start(terms(s), n)) =~= s.subrange(
        gap_start(terms(s), n),
        s.len() as int,
    ));
    lemma_no_term_is_left(s, fills);
}

/// The two texts of a rolled expression are what scanning and replacing
/// over and over makes of it: once with each roll as shown, once with each
/// sum, round by round in the order of the rolls.
pub proof fn lemma_expression_is_rescanned(text: Seq<char>, limits: Limits, draws: Seq<nat>)
    ensures
        expression_rolled(text, limits, draws).outcome matches Ok(rolled) ==> {
            let rounds = rolled.rolls.len() as int;
            &&& rolled.dice == rescanned(
                text,
                rolled.rolls.map_values(|roll: DiceRollView| shown(roll)),
                rounds,
            )
            &&& sums_of(rolled.rolls) matches Some(sums) && rolled.vals == rescanned(
                text,
                sums.map_values(|sum: int| decimal(sum)),
                rounds,
            )
        },
{
    if let Ok(rolled) = expression_rolled(text, limits, draws).outcome {
        lemma_one_roll_for_each_term(text, limits, draws);
        lemma_sums_length(rolled.rolls);
        let sums = sums_of(rolled.rolls)->0;
        let shown_rolls = rolled.rolls.map_values(|roll: DiceRollView| shown(roll));
        let shown_sums = sums.map_values(|sum: int| decimal(sum));
        assert forall|j: int| 0 <= j < shown_rolls.len() implies has_no_d(
            #[trigger] shown_rolls[j],
        ) by {
            lemma_shown_has_no_d(rolled.rolls[j]);
        }
        assert forall|j: int| 0 <= j < shown_sums.len() implies has_no_d(#[trigger] shown_sums[j]) by {
            lemma_decimal_has_no_d(sums[j]);
        }
        lemma_rescanning_is_replacing(text, shown_rolls, Seq::empty());
        lemma_rescanning_is_replacing(text, shown_sums, Seq::empty());
    }
}

} // verus!
