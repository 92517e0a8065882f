//! Numbers written in the usual national formats, such as `1,234.56`
//! (US), `1.234,56` (European) or `12,34,567.89` (Indian).

use vstd::prelude::*;

use crate::decimal::{decimal_from_str_exact, rd_from_str_exact, Dec};
use crate::ledger::{regex_check, regex_compiles, regex_find, regex_matches};
use crate::text::{chars_of, string_of};

verus! {

/// A way of writing numbers.
#[derive(Debug, Clone, Copy, PartialEq, Eq, Hash)]
pub enum NumberFormat {
    /// `1,234,567.89`
    Us,
    /// `1.234.567,89`
    European,
    /// `1 234 567,89`
    French,
    /// `1'234'567.89`
    Swiss,
    /// `12,34,567.89`
    Indian,
    /// `1234567.89`
    Plain,
}

/// An ASCII digit.
pub open spec fn is_digit(c: char) -> bool {
    '0' <= c && c <= '9'
}

/// The digit class `\d` as a regular expression of `regex`.
pub open spec fn digit_class() -> Seq<char> {
    "\\d"@
}

/// A decimal digit as the class `\d` of `regex` has it: an ASCII digit,
/// or a character outside ASCII that the class matches (the other
/// Unicode decimal digits, such as `٣` or `３`).
pub open spec fn is_num_digit(c: char) -> bool {
    ||| is_digit(c)
    ||| (c as int) >= 128 && regex_compiles(digit_class()) && regex_matches(digit_class(), seq![c])
}

/// Whether `c` is a decimal digit (see `is_num_digit`).
fn num_digit(c: char) -> (r: bool)
    ensures
        r == is_num_digit(c),
{
    if '0' <= c && c <= '9' {
        return true;
    }
    if (c as u32) < 128 {
        return false;
    }
    let one = string_of(&[c]);
    assert(one@ =~= seq![c]);
    regex_check("\\d") && regex_find("\\d", one.as_str())
}

/// Every character is a decimal digit.
pub open spec fn all_digits(s: Seq<char>) -> bool {
    forall|i: int| 0 <= i < s.len() ==> is_num_digit(s[i])
}

/// One or more digits.
pub open spec fn digits1(s: Seq<char>) -> bool {
    s.len() >= 1 && all_digits(s)
}

/// One to three digits, then groups of a separator `g` and three digits:
/// `\d{1,3}(g\d{3})*`.
pub open spec fn grouped(s: Seq<char>, g: char) -> bool
    decreases s.len(),
{
    if 1 <= s.len() <= 3 {
        all_digits(s)
    } else if s.len() >= 5 {
        &&& s[s.len() - 4] == g
        &&& all_digits(s.skip(s.len() - 3))
        &&& grouped(s.take(s.len() - 4), g)
    } else {
        false
    }
}

/// The head of an Indian integer part: `(0|[1-9]\d{0,2})(,\d{2})*`.
pub open spec fn indian_head(s: Seq<char>) -> bool
    decreases s.len(),
{
    if 1 <= s.len() <= 3 {
        &&& all_digits(s)
        &&& (s[0] != '0' || s.len() == 1)
    } else if s.len() >= 4 {
        &&& s[s.len() - 3] == ','
        &&& all_digits(s.skip(s.len() - 2))
        &&& indian_head(s.take(s.len() - 3))
    } else {
        false
    }
}

/// An Indian integer part: a head, then `,` and the last three digits.
pub open spec fn indian_int(s: Seq<char>) -> bool {
    &&& s.len() >= 5
    &&& s[s.len() - 4] == ','
    &&& all_digits(s.skip(s.len() - 3))
    &&& indian_head(s.take(s.len() - 4))
}

/// The integer part of format `f`.
pub open spec fn int_part(s: Seq<char>, f: NumberFormat) -> bool {
    match f {
        NumberFormat::Us => grouped(s, ','),
        NumberFormat::European => grouped(s, '.'),
        NumberFormat::French => grouped(s, ' '),
        NumberFormat::Swiss => grouped(s, '\''),
        NumberFormat::Indian => indian_int(s),
        NumberFormat::Plain => digits1(s),
    }
}

/// The decimal mark of format `f`.
pub open spec fn decimal_mark(f: NumberFormat) -> char {
    match f {
        NumberFormat::European => ',',
        NumberFormat::French => ',',
        _ => '.',
    }
}

/// The length of the sign, if `s` starts with `+` or `-`.
pub open spec fn sign_len(s: Seq<char>) -> int {
    if s.len() > 0 && (s[0] == '+' || s[0] == '-') {
        1
    } else {
        0
    }
}

/// `s` is a number written in format `f`: an optional sign, the integer
/// part, and optionally the decimal mark followed by one or more digits.
pub open spec fn is_format_spec(s: Seq<char>, f: NumberFormat) -> bool {
    let t = s.skip(sign_len(s));
    ||| int_part(t, f)
    ||| exists|i: int|
        0 <= i < t.len() && t[i] == decimal_mark(f) && int_part(t.take(i), f) && digits1(
            t.skip(i + 1),
        )
}

fn check_all_digits(t: &[char], a: usize, b: usize) -> (r: bool)
    requires
        a <= b <= t@.len(),
    ensures
        r == all_digits(t@.subrange(a as int, b as int)),
{
    let mut i = a;
    while i < b
        invariant
            a <= i <= b <= t@.len(),
            forall|j: int| a <= j < i ==> is_num_digit(t@[j]),
        decreases b - i,
    {
        if !num_digit(t[i]) {
            assert(t@.subrange(a as int, b as int)[i - a] == t@[i as int]);
            return false;
        }
        i = i + 1;
    }
    assert forall|j: int| 0 <= j < b - a implies is_num_digit(t@.subrange(a as int, b as int)[j]) by {
        assert(t@.subrange(a as int, b as int)[j] == t@[a + j]);
    }
    true
}

fn check_grouped(t: &[char], n: usize, g: char) -> (r: bool)
    requires
        n <= t@.len(),
    ensures
        r == grouped(t@.take(n as int), g),
    decreases n,
{
    if 1 <= n && n <= 3 {
        assert(t@.take(n as int) =~= t@.subrange(0, n as int));
        return check_all_digits(t, 0, n);
    }
    if n < 5 {
        return false;
    }
    let ghost s = t@.take(n as int);
    assert(s.skip(s.len() - 3) =~= t@.subrange(n - 3, n as int));
    assert(s.take(s.len() - 4) =~= t@.take(n - 4));
    if t[n - 4] != g {
        return false;
    }
    if !check_all_digits(t, n - 3, n) {
        return false;
    }
    check_grouped(t, n - 4, g)
}

fn check_indian_head(t: &[char], n: usize) -> (r: bool)
    requires
        n <= t@.len(),
    ensures
        r == indian_head(t@.take(n as int)),
    decreases n,
{
    let ghost s = t@.take(n as int);
    if 1 <= n && n <= 3 {
        assert(s =~= t@.subrange(0, n as int));
        let d = check_all_digits(t, 0, n);
        return d && (t[0] != '0' || n == 1);
    }
    if n < 4 {
        return false;
    }
    assert(s.skip(s.len() - 2) =~= t@.subrange(n - 2, n as int));
    assert(s.take(s.len() - 3) =~= t@.take(n - 3));
    if t[n - 3] != ',' {
        return false;
    }
    if !check_all_digits(t, n - 2, n) {
        return false;
    }
    check_indian_head(t, n - 3)
}

fn check_int_part(t: &[char], n: usize, f: NumberFormat) -> (r: bool)
    requires
        n <= t@.len(),
    ensures
        r == int_part(t@.take(n as int), f),
{
    match f {
        NumberFormat::Us => check_grouped(t, n, ','),
        NumberFormat::European => check_grouped(t, n, '.'),
        NumberFormat::French => check_grouped(t, n, ' '),
        NumberFormat::Swiss => check_grouped(t, n, '\''),
        NumberFormat::Plain => {
            assert(t@.take(n as int) =~= t@.subrange(0, n as int));
            n >= 1 && check_all_digits(t, 0, n)
        },
        NumberFormat::Indian => {
            if n < 5 {
                return false;
            }
            let ghost s = t@.take(n as int);
            assert(s.skip(s.len() - 3) =~= t@.subrange(n - 3, n as int));
            assert(s.take(s.len() - 4) =~= t@.take(n - 4));
            t[n - 4] == ',' && check_all_digits(t, n - 3, n) && check_indian_head(t, n - 4)
        },
    }
}

proof fn lemma_grouped_no_mark(s: Seq<char>, g: char, m: char)
    requires
        grouped(s, g),
        m != g,
        !is_num_digit(m),
    ensures
        forall|i: int| 0 <= i < s.len() ==> s[i] != m,
    decreases s.len(),
{
    if s.len() >= 5 {
        lemma_grouped_no_mark(s.take(s.len() - 4), g, m);
        assert forall|i: int| 0 <= i < s.len() implies s[i] != m by {
            if i < s.len() - 4 {
                assert(s.take(s.len() - 4)[i] == s[i]);
            } else if i > s.len() - 4 {
                assert(s.skip(s.len() - 3)[i - (s.len() - 3)] == s[i]);
            }
        }
    }
}

proof fn lemma_indian_head_no_mark(s: Seq<char>)
    requires
        indian_head(s),
    ensures
        forall|i: int| 0 <= i < s.len() ==> s[i] != '.',
    decreases s.len(),
{
    if s.len() >= 4 {
        lemma_indian_head_no_mark(s.take(s.len() - 3));
        assert forall|i: int| 0 <= i < s.len() implies s[i] != '.' by {
            if i < s.len() - 3 {
                assert(s.take(s.len() - 3)[i] == s[i]);
            } else if i > s.len() - 3 {
                assert(s.skip(s.len() - 2)[i - (s.len() - 2)] == s[i]);
            }
        }
    }
}

proof fn lemma_int_part_no_mark(s: Seq<char>, f: NumberFormat)
    requires
        int_part(s, f),
    ensures
        forall|i: int| 0 <= i < s.len() ==> s[i] != decimal_mark(f),
{
    match f {
        NumberFormat::Us => lemma_grouped_no_mark(s, ',', '.'),
        NumberFormat::European => lemma_grouped_no_mark(s, '.', ','),
        NumberFormat::French => lemma_grouped_no_mark(s, ' ', ','),
        NumberFormat::Swiss => lemma_grouped_no_mark(s, '\'', '.'),
        NumberFormat::Plain => {},
        NumberFormat::Indian => {
            let h = s.take(s.len() - 4);
            lemma_indian_head_no_mark(h);
            assert forall|i: int| 0 <= i < s.len() implies s[i] != '.' by {
                if i < s.len() - 4 {
                    assert(h[i] == s[i]);
                } else if i > s.len() - 4 {
                    assert(s.skip(s.len() - 3)[i - (s.len() - 3)] == s[i]);
                }
            }
        },
    }
}

/// Whether `input` is a number written in format `f`.
pub fn is_format(input: &str, f: NumberFormat) -> (r: bool)
    ensures
        r == is_format_spec(input@, f),
{
    let all = chars_of(input);
    let n = all.len();
    let start: usize = if n > 0 && (all[0] == '+' || all[0] == '-') {
        1
    } else {
        0
    };
    let t = &all.as_slice()[start..n];
    let ghost ts = input@.skip(sign_len(input@));
    assert(t@ =~= ts);
    let mark = match f {
        NumberFormat::European => ',',
        NumberFormat::French => ',',
        _ => '.',
    };
    let len = t.len();
    let mut k: usize = 0;
    while k < len && t[k] != mark
        invariant
            k <= len == ts.len(),
            t@ == ts,
            forall|j: int| 0 <= j < k ==> ts[j] != mark,
        decreases len - k,
    {
        k = k + 1;
    }
    assert(ts.take(len as int) =~= ts);
    if k == len {
        let r = check_int_part(t, len, f);
        proof {
            if !r {
                assert(!exists|i: int|
                    0 <= i < ts.len() && ts[i] == decimal_mark(f) && int_part(ts.take(i), f)
                        && digits1(ts.skip(i + 1)));
            }
        }
        return r;
    }
    let ip = check_int_part(t, k, f);
    let fp = k + 1 < len && check_all_digits(t, k + 1, len);
    assert(ts.skip(k + 1) =~= ts.subrange(k + 1, len as int));
    let r = ip && fp;
    proof {
        if ip && fp {
            assert(ts[k as int] == decimal_mark(f));
        } else {
            if int_part(ts, f) {
                lemma_int_part_no_mark(ts, f);
                assert(ts[k as int] != decimal_mark(f));
            }
            assert forall|i: int|
                0 <= i < ts.len() && ts[i] == decimal_mark(f) && int_part(ts.take(i), f) implies !digits1(
                ts.skip(i + 1),
            ) by {
                if i > k {
                    lemma_int_part_no_mark(ts.take(i), f);
                    assert(ts.take(i)[k as int] == ts[k as int]);
                }
            }
        }
    }
    r
}

/// `s` with every `c` removed.
pub open spec fn remove_char(s: Seq<char>, c: char) -> Seq<char>
    decreases s.len(),
{
    if s.len() == 0 {
        s
    } else {
        let r = remove_char(s.drop_last(), c);
        if s.last() == c {
            r
        } else {
            r.push(s.last())
        }
    }
}

/// `s` with every `a` turned into `b`.
pub open spec fn replace_char(s: Seq<char>, a: char, b: char) -> Seq<char> {
    s.map_values(|x: char| if x == a { b } else { x })
}

/// The text of a number in format `f`, rewritten in the plain format that
/// `Decimal::from_str_exact` reads: group separators dropped and the
/// decimal mark turned into `.`.
pub open spec fn cleaned(s: Seq<char>, f: NumberFormat) -> Seq<char> {
    match f {
        NumberFormat::Us => remove_char(s, ','),
        NumberFormat::European => replace_char(remove_char(s, '.'), ',', '.'),
        NumberFormat::French => replace_char(remove_char(s, ' '), ',', '.'),
        NumberFormat::Swiss => remove_char(s, '\''),
        NumberFormat::Plain => s,
        NumberFormat::Indian => remove_char(s, ','),
    }
}

pub(crate) fn remove_chars(cs: &Vec<char>, c: char) -> (r: Vec<char>)
    ensures
        r@ == remove_char(cs@, c),
{
    let mut r: Vec<char> = Vec::new();
    let mut i: usize = 0;
    while i < cs.len()
        invariant
            i <= cs@.len(),
            r@ == remove_char(cs@.take(i as int), c),
        decreases cs@.len() - i,
    {
        assert(cs@.take(i + 1).drop_last() =~= cs@.take(i as int));
        if cs[i] != c {
            r.push(cs[i]);
        }
        i = i + 1;
    }
    assert(cs@.take(cs@.len() as int) =~= cs@);
    r
}

fn replace_chars(cs: &Vec<char>, a: char, b: char) -> (r: Vec<char>)
    ensures
        r@ == replace_char(cs@, a, b),
{
    let mut r: Vec<char> = Vec::new();
    let mut i: usize = 0;
    while i < cs.len()
        invariant
            i <= cs@.len(),
            r@ == replace_char(cs@.take(i as int), a, b),
        decreases cs@.len() - i,
    {
        let x = cs[i];
        r.push(if x == a { b } else { x });
        assert(r@ =~= replace_char(cs@.take(i + 1), a, b));
        i = i + 1;
    }
    assert(cs@.take(cs@.len() as int) =~= cs@);
    r
}

/// Parses `input` as a number written in format `f`.
///
/// `None` when the text is not in that format; otherwise the text is
/// rewritten in the plain format and read by `Decimal::from_str_exact`,
/// which may still refuse it (too many digits for a decimal).
pub fn parse(input: &str, f: NumberFormat) -> (r: Option<Dec>)
    ensures
        !is_format_spec(input@, f) ==> r is None,
        is_format_spec(input@, f) ==> r == decimal_from_str_exact(cleaned(input@, f)),
        r matches Some(x) ==> x.wf(),
{
    if !is_format(input, f) {
        return None;
    }
    let cs = chars_of(input);
    let cl = match f {
        NumberFormat::Us => remove_chars(&cs, ','),
        NumberFormat::European => replace_chars(&remove_chars(&cs, '.'), ',', '.'),
        NumberFormat::French => replace_chars(&remove_chars(&cs, ' '), ',', '.'),
        NumberFormat::Swiss => remove_chars(&cs, '\''),
        NumberFormat::Plain => cs,
        NumberFormat::Indian => remove_chars(&cs, ','),
    };
    let s = string_of(cl.as_slice());
    rd_from_str_exact(s.as_str())
}

} // verus!
