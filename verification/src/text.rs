//! Characters, blank space and decimal numbers.
//!
//! Text is handled as a vector of characters; `chars_of` and `string_of`
//! lead in from `str` and back out to `String`.

use vstd::prelude::*;

verus! {

/// `String::push` appends one character.
pub assume_specification[ String::push ](s: &mut String, c: char)
    ensures
        final(s)@ == old(s)@.push(c),
;

/// The characters of `s`, in order.
pub fn chars_of(s: &str) -> (v: Vec<char>)
    ensures
        v@ == s@,
{
    let mut v: Vec<char> = Vec::new();
    for c in it: s.chars()
        invariant
            it.seq() == s@,
            v@ == it.seq().take(it.index() as int),
    {
        v.push(c);
    }
    v
}

/// The string made of the characters `v[from..to]`.
pub(crate) fn string_of(v: &Vec<char>, from: usize, to: usize) -> (s: String)
    requires
        from <= to <= v.len(),
    ensures
        s@ == v@.subrange(from as int, to as int),
{
    let mut s = String::new();
    let mut i: usize = from;
    while i < to
        invariant
            from <= i <= to <= v.len(),
            s@ == v@.subrange(from as int, i as int),
        decreases to - i,
    {
        s.push(v[i]);
        i += 1;
    }
    s
}

/// Appends the characters `v[from..to]` to `out`.
pub(crate) fn push_range(out: &mut Vec<char>, v: &Vec<char>, from: usize, to: usize)
    requires
        from <= to <= v.len(),
    ensures
        final(out)@ == old(out)@ + v@.subrange(from as int, to as int),
{
    let mut i: usize = from;
    while i < to
        invariant
            from <= i <= to <= v.len(),
            out@ == old(out)@ + v@.subrange(from as int, i as int),
        decreases to - i,
    {
        out.push(v[i]);
        i += 1;
    }
}

/// Stretches of a text, each from its first position to the one after its
/// last, as integers.
pub open spec fn spans_of(spans: Seq<(usize, usize)>) -> Seq<(int, int)> {
    spans.map_values(|p: (usize, usize)| (p.0 as int, p.1 as int))
}

/// A decimal digit, `0` to `9`.
pub open spec fn is_digit(c: char) -> bool {
    '0' <= c && c <= '9'
}

/// Whether `c` is a decimal digit.
pub fn digit(c: char) -> (b: bool)
    ensures
        b == is_digit(c),
{
    '0' <= c && c <= '9'
}

/// The number a digit stands for.
pub open spec fn digit_value(c: char) -> int {
    c as int - '0' as int
}

/// The digit that stands for `d`, for `d` in `0..10`.
pub open spec fn digit_char(d: int) -> char {
    (d + 48) as u8 as char
}

/// Every character of `s` is a digit.
pub open spec fn all_digits(s: Seq<char>) -> bool {
    forall|i: int| 0 <= i < s.len() ==> is_digit(#[trigger] s[i])
}

/// How many digits stand at `i` and directly after it.
pub open spec fn digit_run(s: Seq<char>, i: int) -> nat
    decreases s.len() - i,
{
    if 0 <= i < s.len() && is_digit(s[i]) {
        1 + digit_run(s, i + 1)
    } else {
        0
    }
}

/// A run of digits ends inside the text.
pub proof fn lemma_digit_run_inside(s: Seq<char>, i: int)
    requires
        0 <= i <= s.len(),
    ensures
        i + digit_run(s, i) <= s.len(),
    decreases s.len() - i,
{
    if i < s.len() && is_digit(s[i]) {
        lemma_digit_run_inside(s, i + 1);
    }
}

/// The number that the digits `s` write, most significant digit first.
pub open spec fn decimal_value(s: Seq<char>) -> int
    decreases s.len(),
{
    if s.len() == 0 {
        0
    } else {
        10 * decimal_value(s.drop_last()) + digit_value(s.last())
    }
}

/// The digits of `n`, most significant first, without leading zeros.
pub open spec fn digits_of(n: nat) -> Seq<char>
    decreases n,
{
    if n < 10 {
        seq![digit_char(n as int)]
    } else {
        digits_of(n / 10).push(digit_char((n % 10) as int))
    }
}

/// `n` in decimal, with a leading `-` when negative.
pub open spec fn decimal(n: int) -> Seq<char> {
    if n < 0 {
        seq!['-'] + digits_of((-n) as nat)
    } else {
        digits_of(n as nat)
    }
}

/// Digits never write a negative number, and a longer number is no smaller
/// than any of its prefixes.
pub proof fn lemma_decimal_value_prefix(s: Seq<char>, k: int)
    requires
        all_digits(s),
        0 <= k <= s.len(),
    ensures
        0 <= decimal_value(s.take(k)) <= decimal_value(s),
    decreases s.len(),
{
    if s.len() == 0 {
        assert(s.take(k) =~= s);
    } else if k == s.len() {
        assert(s.take(k) =~= s);
        lemma_decimal_value_prefix(s.drop_last(), k - 1);
        assert(is_digit(s.last()));
    } else {
        lemma_decimal_value_prefix(s.drop_last(), k);
        assert(s.drop_last().take(k) =~= s.take(k));
        assert(s.drop_last().take(s.len() - 1) =~= s.drop_last());
        lemma_decimal_value_prefix(s.drop_last(), s.len() - 1);
        assert(is_digit(s.last()));
    }
}

/// Reads the digits `v[from..to]` as a number that is at most `most`.
///
/// `None` means that the number is larger than `most`.
pub(crate) fn digits_up_to(v: &Vec<char>, from: usize, to: usize, most: i64) -> (r: Option<i64>)
    requires
        from <= to <= v.len(),
        all_digits(v@.subrange(from as int, to as int)),
        0 <= most <= 0x1_0000_0000,
    ensures
        r matches Some(n) ==> n == decimal_value(v@.subrange(from as int, to as int)) && 0 <= n
            <= most,
        r is None <==> decimal_value(v@.subrange(from as int, to as int)) > most,
{
    let ghost s = v@.subrange(from as int, to as int);
    let mut acc: i64 = 0;
    let mut i: usize = from;
    while i < to
        invariant
            from <= i <= to <= v.len(),
            s == v@.subrange(from as int, to as int),
            all_digits(s),
            acc == decimal_value(s.take(i - from)),
            0 <= acc <= most <= 0x1_0000_0000,
        decreases to - i,
    {
        let c = v[i];
        assert(c == s[i - from]);
        assert(is_digit(c));
        let d: i64 = (c as u32 - '0' as u32) as i64;
        let next: i64 = acc * 10 + d;
        proof {
            let t = s.take(i - from + 1);
            assert(t.drop_last() =~= s.take(i - from));
            assert(t.last() == c);
            assert(next == decimal_value(t));
        }
        if next > most {
            proof {
                lemma_decimal_value_prefix(s, i - from + 1);
            }
            return None;
        }
        acc = next;
        i += 1;
    }
    proof {
        assert(s.take(to - from) =~= s);
    }
    Some(acc)
}

/// Reads the digits `v[from..to]` as a number.
///
/// `None` means that the number is larger than `i32::MAX`.
pub(crate) fn digits_to_i32(v: &Vec<char>, from: usize, to: usize) -> (r: Option<i32>)
    requires
        from <= to <= v.len(),
        all_digits(v@.subrange(from as int, to as int)),
    ensures
        r matches Some(n) ==> n == decimal_value(v@.subrange(from as int, to as int)),
        r is None <==> decimal_value(v@.subrange(from as int, to as int)) > i32::MAX,
{
    match digits_up_to(v, from, to, i32::MAX as i64) {
        Some(n) => Some(n as i32),
        None => None,
    }
}

/// A number: one digit or more.
pub open spec fn is_number(token: Seq<char>) -> bool {
    token.len() > 0 && all_digits(token)
}

/// Whether `v[from..to]` is a number.
pub(crate) fn number_at(v: &Vec<char>, from: usize, to: usize) -> (b: bool)
    requires
        from <= to <= v.len(),
    ensures
        b == is_number(v@.subrange(from as int, to as int)),
{
    if from == to {
        return false;
    }
    let ghost t = v@.subrange(from as int, to as int);
    let mut i: usize = from;
    while i < to
        invariant
            from <= i <= to <= v.len(),
            t == v@.subrange(from as int, to as int),
            forall|j: int| 0 <= j < i - from ==> is_digit(#[trigger] t[j]),
        decreases to - i,
    {
        if !digit(v[i]) {
            assert(!is_digit(t[i - from]));
            return false;
        }
        i += 1;
    }
    true
}

/// A text that writes an integer of the dice type: digits, with `+` or `-`
/// before them or without, whose number fits the type.
pub open spec fn is_integer_text(s: Seq<char>) -> bool {
    if s.len() > 0 && s[0] == '-' {
        is_number(s.skip(1)) && decimal_value(s.skip(1)) <= 0x8000_0000
    } else if s.len() > 0 && s[0] == '+' {
        is_number(s.skip(1)) && decimal_value(s.skip(1)) <= i32::MAX
    } else {
        is_number(s) && decimal_value(s) <= i32::MAX
    }
}

/// The integer that a text writes: the number of its digits, negative
/// after a `-`.
pub open spec fn integer_value(s: Seq<char>) -> int {
    if s.len() > 0 && s[0] == '-' {
        -decimal_value(s.skip(1))
    } else if s.len() > 0 && s[0] == '+' {
        decimal_value(s.skip(1))
    } else {
        decimal_value(s)
    }
}

/// Reading the digits of a number gives the number back.
pub proof fn lemma_digits_round_trip(n: nat)
    ensures
        is_number(digits_of(n)),
        decimal_value(digits_of(n)) == n,
    decreases n,
{
    reveal_with_fuel(decimal_value, 2);
    if n < 10 {
        let s = digits_of(n);
        assert(s.drop_last() =~= Seq::<char>::empty());
        assert(is_digit(s[0]) && digit_value(s[0]) == n);
    } else {
        lemma_digits_round_trip(n / 10);
        let s = digits_of(n);
        let c = digit_char((n % 10) as int);
        assert(s.drop_last() =~= digits_of(n / 10));
        assert(is_digit(c) && digit_value(c) == n % 10);
        assert(s.last() == c);
        assert forall|i: int| 0 <= i < s.len() implies is_digit(#[trigger] s[i]) by {
            if i < s.len() - 1 {
                assert(s[i] == digits_of(n / 10)[i]);
            }
        }
    }
}

/// Reading an integer written in decimal gives the integer back, and what
/// is written is an integer text whenever the integer fits the dice type.
pub proof fn lemma_decimal_round_trip(n: int)
    ensures
        integer_value(decimal(n)) == n,
        i32::MIN <= n <= i32::MAX ==> is_integer_text(decimal(n)),
{
    if n < 0 {
        lemma_digits_round_trip((-n) as nat);
        assert(decimal(n).skip(1) =~= digits_of((-n) as nat));
    } else {
        lemma_digits_round_trip(n as nat);
        let s = digits_of(n as nat);
        assert(is_digit(s[0]));
    }
}

/// Whether `v` writes an integer of the dice type.
pub fn integer_text(v: &Vec<char>) -> (b: bool)
    ensures
        b == is_integer_text(v@),
{
    let n: usize = v.len();
    let signed: bool = n > 0 && (v[0] == '-' || v[0] == '+');
    let from: usize = if signed {
        1
    } else {
        0
    };
    proof {
        if signed {
            assert(v@.subrange(1, n as int) =~= v@.skip(1));
        } else {
            assert(v@.subrange(0, n as int) =~= v@);
        }
    }
    if !number_at(v, from, n) {
        return false;
    }
    let most: i64 = if n > 0 && v[0] == '-' {
        0x8000_0000
    } else {
        i32::MAX as i64
    };
    digits_up_to(v, from, n, most).is_some()
}

/// Appends the digits of `n` to `out`.
pub fn push_digits(out: &mut Vec<char>, n: u64)
    ensures
        final(out)@ == old(out)@ + digits_of(n as nat),
    decreases n,
{
    if n >= 10 {
        push_digits(out, n / 10);
    }
    out.push(((n % 10) as u8 + 48) as char);
    assert(out@ =~= old(out)@ + digits_of(n as nat));
}

/// Appends `n` in decimal to `out`.
pub fn push_decimal(out: &mut Vec<char>, n: i32)
    ensures
        final(out)@ == old(out)@ + decimal(n as int),
{
    if n < 0 {
        out.push('-');
        let m: u64 = (-(n as i64)) as u64;
        push_digits(out, m);
        assert(out@ =~= old(out)@ + decimal(n as int));
    } else {
        push_digits(out, n as u64);
    }
}

/// How many bytes a character takes in UTF-8.
pub open spec fn char_bytes(c: char) -> nat {
    if (c as u32) < 0x80 {
        1
    } else if (c as u32) < 0x800 {
        2
    } else if (c as u32) < 0x1_0000 {
        3
    } else {
        4
    }
}

/// How many bytes a text takes in UTF-8.
pub open spec fn byte_len(s: Seq<char>) -> nat
    decreases s.len(),
{
    if s.len() == 0 {
        0
    } else {
        byte_len(s.drop_last()) + char_bytes(s.last())
    }
}

/// A longer text takes no fewer bytes than any of its prefixes.
pub proof fn lemma_byte_len_prefix(s: Seq<char>, k: int)
    requires
        0 <= k <= s.len(),
    ensures
        byte_len(s.take(k)) <= byte_len(s),
    decreases s.len() - k,
{
    if k == s.len() {
        assert(s.take(k) =~= s);
    } else {
        assert(s.take(k + 1).drop_last() =~= s.take(k));
        lemma_byte_len_prefix(s, k + 1);
    }
}

/// Two texts in a row take the bytes of both.
pub proof fn lemma_byte_len_sum(a: Seq<char>, b: Seq<char>)
    ensures
        byte_len(a + b) == byte_len(a) + byte_len(b),
    decreases b.len(),
{
    if b.len() == 0 {
        assert(a + b =~= a);
    } else {
        assert((a + b).drop_last() =~= a + b.drop_last());
        lemma_byte_len_sum(a, b.drop_last());
    }
}

/// The smaller of two numbers.
pub open spec fn least(a: int, b: int) -> int {
    if a <= b {
        a
    } else {
        b
    }
}

/// Counts the bytes that `v` takes in UTF-8, up to `most`.
pub fn count_bytes(v: &Vec<char>, most: usize) -> (n: usize)
    ensures
        n == least(byte_len(v@) as int, most as int),
{
    let mut n: usize = 0;
    let mut i: usize = 0;
    assert(v@.take(0) =~= Seq::<char>::empty());
    while i < v.len()
        invariant
            i <= v.len(),
            n == byte_len(v@.take(i as int)),
            n <= most,
        decreases v.len() - i,
    {
        let u: u32 = v[i] as u32;
        proof {
            assert(v@.take(i + 1).drop_last() =~= v@.take(i as int));
            assert(v@.take(i + 1).last() == v@[i as int]);
        }
        let width: usize = if u < 0x80 {
            1
        } else if u < 0x800 {
            2
        } else if u < 0x1_0000 {
            3
        } else {
            4
        };
        if most - n <= width {
            proof {
                lemma_byte_len_prefix(v@, i + 1);
            }
            return most;
        }
        n += width;
        i += 1;
    }
    assert(v@.take(v.len() as int) =~= v@);
    n
}

/// Blank space: the characters that Unicode marks as white space.
pub open spec fn is_space(c: char) -> bool {
    let u = c as u32;
    ||| 0x09 <= u <= 0x0D
    ||| u == 0x20
    ||| u == 0x85
    ||| u == 0xA0
    ||| u == 0x1680
    ||| 0x2000 <= u <= 0x200A
    ||| u == 0x2028
    ||| u == 0x2029
    ||| u == 0x202F
    ||| u == 0x205F
    ||| u == 0x3000
}

/// Whether `c` is blank space.
pub fn space(c: char) -> (b: bool)
    ensures
        b == is_space(c),
{
    let u: u32 = c as u32;
    (0x09 <= u && u <= 0x0D) || u == 0x20 || u == 0x85 || u == 0xA0 || u == 0x1680 || (0x2000 <= u
        && u <= 0x200A) || u == 0x2028 || u == 0x2029 || u == 0x202F || u == 0x205F || u == 0x3000
}

/// Nothing but blank space; the empty text is blank.
pub open spec fn is_blank(s: Seq<char>) -> bool {
    forall|i: int| 0 <= i < s.len() ==> is_space(#[trigger] s[i])
}

/// Whether `v` is nothing but blank space.
pub fn blank(v: &Vec<char>) -> (b: bool)
    ensures
        b == is_blank(v@),
{
    let mut i: usize = 0;
    while i < v.len()
        invariant
            i <= v.len(),
            forall|j: int| 0 <= j < i ==> is_space(#[trigger] v@[j]),
        decreases v.len() - i,
    {
        if !space(v[i]) {
            return false;
        }
        i += 1;
    }
    true
}

/// A character of plain arithmetic: a digit, a point, one of `+ - * /`, a
/// round bracket, a blank, a tab or a line end.
pub open spec fn is_arithmetic_char(c: char) -> bool {
    ||| is_digit(c)
    ||| c == '.'
    ||| c == '+'
    ||| c == '-'
    ||| c == '*'
    ||| c == '/'
    ||| c == '('
    ||| c == ')'
    ||| c == ' '
    ||| c == '\t'
    ||| c == '\r'
    ||| c == '\n'
}

/// Plain arithmetic: numbers, `+ - * /`, round brackets and space.
pub open spec fn is_arithmetic(s: Seq<char>) -> bool {
    forall|i: int| 0 <= i < s.len() ==> is_arithmetic_char(#[trigger] s[i])
}

/// Whether `v` is plain arithmetic.
pub fn arithmetic(v: &Vec<char>) -> (b: bool)
    ensures
        b == is_arithmetic(v@),
{
    let mut i: usize = 0;
    while i < v.len()
        invariant
            i <= v.len(),
            forall|j: int| 0 <= j < i ==> is_arithmetic_char(#[trigger] v@[j]),
        decreases v.len() - i,
    {
        let c: char = v[i];
        if !(digit(c) || c == '.' || c == '+' || c == '-' || c == '*' || c == '/' || c == '('
            || c == ')' || c == ' ' || c == '\t' || c == '\r' || c == '\n') {
            return false;
        }
        i += 1;
    }
    true
}

/// `s` without the blank space at its start.
pub open spec fn strip_start(s: Seq<char>) -> Seq<char>
    decreases s.len(),
{
    if s.len() > 0 && is_space(s[0]) {
        strip_start(s.skip(1))
    } else {
        s
    }
}

/// `s` without the blank space at its end.
pub open spec fn strip_end(s: Seq<char>) -> Seq<char>
    decreases s.len(),
{
    if s.len() > 0 && is_space(s.last()) {
        strip_end(s.drop_last())
    } else {
        s
    }
}

/// `s` without the blank space at either end.
pub open spec fn trimmed(s: Seq<char>) -> Seq<char> {
    strip_end(strip_start(s))
}

/// A copy of `v` without the blank space at either end.
pub fn trim(v: &Vec<char>) -> (t: Vec<char>)
    ensures
        t@ == trimmed(v@),
{
    let mut a: usize = 0;
    assert(v@.skip(0) =~= v@);
    while a < v.len() && space(v[a])
        invariant
            a <= v.len(),
            strip_start(v@) == strip_start(v@.skip(a as int)),
        decreases v.len() - a,
    {
        proof {
            assert(v@.skip(a as int).skip(1) =~= v@.skip(a + 1));
        }
        a += 1;
    }
    let ghost rest = v@.skip(a as int);
    let mut b: usize = v.len();
    assert(rest.take(b - a) =~= rest);
    while b > a && space(v[b - 1])
        invariant
            a <= b <= v.len(),
            rest == v@.skip(a as int),
            strip_end(rest) == strip_end(rest.take(b - a)),
        decreases b,
    {
        proof {
            assert(rest.take(b - a).drop_last() =~= rest.take(b - a - 1));
        }
        b -= 1;
    }
    let mut t: Vec<char> = Vec::new();
    push_range(&mut t, v, a, b);
    assert(t@ =~= rest.take(b - a));
    t
}

} // verus!
