//! Market prices: the `P DATE[ TIME] SYM PRICE` lines of a price
//! database, and the table of prices by commodity and date.

use vstd::prelude::*;

use crate::date::{valid_hms, valid_ymd, Date, DateTime, Time};
use crate::decimal::{decimal_from_str, pow10, rd_from_str, Dec};
use crate::iter::MultiPeek;
use crate::number::{is_digit, remove_char, remove_chars};
use crate::quantity::Quantity;
use crate::symbol::Symbol;
use crate::text::{chars_of, is_whitespace, spec_is_whitespace, string_of, trim_chars, trim_spec};

verus! {

broadcast use vstd::utf8::group_utf8_lib;

/// Length of the longest prefix of `s` whose characters all satisfy `p`.
pub open spec fn run_len(s: Seq<char>, p: spec_fn(char) -> bool) -> nat
    decreases s.len(),
{
    if s.len() > 0 && p(s[0]) {
        1 + run_len(s.drop_first(), p)
    } else {
        0
    }
}

/// Whitespace, as `char::is_whitespace`.
pub open spec fn ws() -> spec_fn(char) -> bool {
    |c: char| spec_is_whitespace(c)
}

/// Anything but whitespace.
pub open spec fn non_ws() -> spec_fn(char) -> bool {
    |c: char| !spec_is_whitespace(c)
}

/// `s` without its leading whitespace.
pub open spec fn skip_ws(s: Seq<char>) -> Seq<char> {
    s.skip(run_len(s, ws()) as int)
}

/// The run of `p` characters of `s` starting at `i` ends at `i + k`.
pub proof fn lemma_run_len(s: Seq<char>, p: spec_fn(char) -> bool, k: int)
    requires
        0 <= k <= s.len(),
        forall|j: int| 0 <= j < k ==> p(s[j]),
        k == s.len() || !p(s[k]),
    ensures
        run_len(s, p) == k,
    decreases k,
{
    if k > 0 {
        assert forall|j: int| 0 <= j < k - 1 implies p(s.drop_first()[j]) by {
            assert(s.drop_first()[j] == s[j + 1]);
        }
        lemma_run_len(s.drop_first(), p, k - 1);
    }
}

/// The run of `p` characters is a prefix of `s` all of whose characters
/// satisfy `p`, and it stops at the end or at a character that does not.
pub proof fn lemma_run_len_props(s: Seq<char>, p: spec_fn(char) -> bool)
    ensures
        run_len(s, p) <= s.len(),
        forall|j: int| 0 <= j < run_len(s, p) ==> p(s[j]),
        run_len(s, p) < s.len() ==> !p(s[run_len(s, p) as int]),
    decreases s.len(),
{
    if s.len() > 0 && p(s[0]) {
        lemma_run_len_props(s.drop_first(), p);
        assert forall|j: int| 0 <= j < run_len(s, p) implies p(s[j]) by {
            if j > 0 {
                assert(s[j] == s.drop_first()[j - 1]);
            }
        }
    }
}

/// Skips whitespace.
///
/// With `only_peek` false, the whitespace at the front is consumed and the
/// look-ahead is reset. With `only_peek` true, nothing is consumed: the
/// look-ahead position moves past the whitespace under it. Returns how
/// many whitespace characters were skipped.
pub fn discard_ws(input: &mut MultiPeek<char>, only_peek: bool) -> (r: usize)
    requires
        old(input).wf(),
    ensures
        final(input).wf(),
        !only_peek ==> {
            &&& r == run_len(old(input).rest(), ws())
            &&& final(input).rest() == old(input).rest().skip(r as int)
            &&& final(input).cursor() == 0
            &&& final(input).buffered() == if r < old(input).rest().len() {
                imax(old(input).buffered() - r, 1)
            } else {
                0
            }
        },
        only_peek ==> {
            let c0 = old(input).cursor() as int;
            let rest = old(input).rest();
            &&& r == run_len(rest.skip(c0), ws())
            &&& final(input).rest() == rest
            &&& final(input).cursor() == c0 + r
            &&& final(input).buffered() == if c0 < rest.len() {
                let e = if c0 + r + 1 < rest.len() {
                    c0 + r + 1
                } else {
                    rest.len() as int
                };
                if old(input).buffered() > e {
                    old(input).buffered() as int
                } else {
                    e
                }
            } else {
                old(input).buffered() as int
            }
        },
{
    let ghost rest0 = input.rest();
    let ghost b0 = input.buffered();
    let ghost c0 = input.cursor() as int;
    proof {
        input.lemma_bounds();
    }
    if !only_peek {
        input.rewind();
        let mut n: usize = 0;
        loop
            invariant_except_break
                input.buffered() == imax(b0 - n, 0),
            invariant
                input.wf(),
                input.cursor() == 0,
                rest0.len() <= usize::MAX,
                n <= rest0.len(),
                input.rest() == rest0.skip(n as int),
                forall|j: int| 0 <= j < n ==> spec_is_whitespace(rest0[j]),
                b0 <= rest0.len(),
            ensures
                input.wf(),
                input.cursor() == 0,
                rest0.len() <= usize::MAX,
                n <= rest0.len(),
                input.rest() == rest0.skip(n as int),
                forall|j: int| 0 <= j < n ==> spec_is_whitespace(rest0[j]),
                n == rest0.len() || !spec_is_whitespace(rest0[n as int]),
                input.buffered() == if n < rest0.len() {
                    imax(b0 - n, 1)
                } else {
                    0
                },
            decreases rest0.len() - n,
        {
            let ghost before = input.rest();
            proof {
                input.lemma_bounds();
            }
            match input.peek() {
                Some(c) => {
                    let c = *c;
                    assert(before[0] == rest0[n as int]);
                    if is_whitespace(c) {
                        input.next();
                        n = n + 1;
                        assert(input.rest() =~= rest0.skip(n as int));
                        continue;
                    }
                    input.unpeek();
                    break ;
                },
                None => {
                    break ;
                },
            }
        }
        proof {
            lemma_run_len(rest0, ws(), n as int);
        }
        return n;
    }
    let mut n: usize = 0;
    loop
        invariant_except_break
            c0 < rest0.len() && n > 0 ==> input.buffered() == if b0 > c0 + n {
                b0 as int
            } else {
                c0 + n
            },
            n == 0 ==> input.buffered() == b0,
        invariant
            input.wf(),
            input.rest() == rest0,
            rest0.len() <= usize::MAX,
            0 <= c0,
            c0 + n <= rest0.len(),
            input.cursor() == c0 + n,
            forall|j: int| c0 <= j < c0 + n ==> spec_is_whitespace(rest0[j]),
        ensures
            input.wf(),
            input.rest() == rest0,
            c0 + n <= rest0.len(),
            input.cursor() == c0 + n,
            forall|j: int| c0 <= j < c0 + n ==> spec_is_whitespace(rest0[j]),
            c0 + n == rest0.len() || !spec_is_whitespace(rest0[c0 + n]),
            input.buffered() == if c0 < rest0.len() {
                let e = if c0 + n + 1 < rest0.len() {
                    c0 + n + 1
                } else {
                    rest0.len() as int
                };
                if b0 > e {
                    b0 as int
                } else {
                    e
                }
            } else {
                b0 as int
            },
        decreases rest0.len() - n,
    {
        let ghost bb = input.buffered();
        proof {
            input.lemma_bounds();
        }
        match input.peek() {
            Some(c) => {
                let c = *c;
                if is_whitespace(c) {
                    n = n + 1;
                    continue;
                }
                input.unpeek();
                break ;
            },
            None => {
                break ;
            },
        }
    }
    proof {
        assert forall|j: int| 0 <= j < n implies spec_is_whitespace(rest0.skip(c0)[j]) by {
            assert(rest0.skip(c0)[j] == rest0[c0 + j]);
        }
        if c0 + n < rest0.len() {
            assert(rest0.skip(c0)[n as int] == rest0[c0 + n]);
        }
        lemma_run_len(rest0.skip(c0), ws(), n as int);
    }
    n
}


/// The first whitespace-delimited word of `s`, if any, and what follows
/// it.
pub open spec fn read_until_spec(s: Seq<char>) -> (Option<Seq<char>>, Seq<char>) {
    let t = skip_ws(s);
    let n = run_len(t, non_ws()) as int;
    (if n == 0 {
        None
    } else {
        Some(t.take(n))
    }, t.skip(n))
}

/// `max(a, b)`.
pub open spec fn imax(a: int, b: int) -> int {
    if a > b {
        a
    } else {
        b
    }
}

/// `min(a, b)`.
pub open spec fn imin(a: int, b: int) -> int {
    if a < b {
        a
    } else {
        b
    }
}

/// `f` stops at no character of `t` before position `n`, and at the
/// character at `n` where there is one.
pub open spec fn stops_at<F: Fn(&char) -> bool>(f: F, t: Seq<char>, n: int) -> bool {
    &&& 0 <= n <= t.len()
    &&& forall|k: int| 0 <= k < n ==> f.ensures((&t[k],), false)
    &&& n < t.len() ==> f.ensures((&t[n],), true)
}

/// Consumes leading whitespace, then the longest run of characters at
/// which the test `until` does not stop, and returns that run (`None`
/// when it is empty); the character that stops it is not consumed.
pub fn read_until<F: Fn(&char) -> bool>(input: &mut MultiPeek<char>, until: F) -> (r: Option<String>)
    requires
        old(input).wf(),
        forall|c: &char| until.requires((c,)),
    ensures
        final(input).wf(),
        final(input).cursor() == 0,
        final(input).buffered() == if final(input).rest().len() > 0 {
            imax(old(input).buffered() - (old(input).rest().len() - final(input).rest().len()), 1)
        } else {
            0
        },
        ({
            let t = skip_ws(old(input).rest());
            let n = t.len() - final(input).rest().len();
            &&& stops_at(until, t, n)
            &&& final(input).rest() == t.skip(n)
            &&& match r {
                None => n == 0,
                Some(w) => n > 0 && w@ == t.take(n),
            }
        }),
{
    let ghost rest0 = input.rest();
    let ghost b0 = input.buffered();
    proof {
        input.lemma_bounds();
    }
    input.rewind();
    let _nws = discard_ws(input, false);
    proof {
        lemma_run_len_props(rest0, ws());
    }
    let ghost t = input.rest();
    let ghost b1 = input.buffered();
    assert(t == skip_ws(rest0));
    proof {
        input.lemma_bounds();
    }
    let mut r: Vec<char> = Vec::new();
    loop
        invariant_except_break
            r@.len() == 0 ==> input.buffered() == b1,
            r@.len() > 0 ==> input.buffered() == imax(b0 - (rest0.len() - input.rest().len()), 0),
        invariant
            input.wf(),
            input.cursor() == 0,
            t.len() <= usize::MAX,
            b0 <= rest0.len(),
            t.len() <= rest0.len(),
            b1 == if t.len() > 0 {
                imax(b0 - (rest0.len() - t.len()), 1)
            } else {
                0
            },
            forall|c: &char| until.requires((c,)),
            r@.len() <= t.len(),
            input.rest() == t.skip(r@.len() as int),
            r@ == t.take(r@.len() as int),
            forall|j: int| 0 <= j < r@.len() ==> until.ensures((&t[j],), false),
        ensures
            input.wf(),
            input.cursor() == 0,
            r@.len() <= t.len(),
            input.rest() == t.skip(r@.len() as int),
            r@ == t.take(r@.len() as int),
            stops_at(until, t, r@.len() as int),
            input.buffered() == if input.rest().len() > 0 {
                imax(b0 - (rest0.len() - input.rest().len()), 1)
            } else {
                0
            },
        decreases t.len() - r@.len(),
    {
        let ghost before = input.rest();
        proof {
            input.lemma_bounds();
        }
        match input.peek() {
            Some(c) => {
                let c = *c;
                assert(before[0] == t[r@.len() as int]);
                if until(&c) {
                    input.unpeek();
                    break ;
                }
                input.next();
                r.push(c);
                assert(input.rest() =~= t.skip(r@.len() as int));
                assert(r@ =~= t.take(r@.len() as int));
            },
            None => {
                break ;
            },
        }
    }
    assert(t.skip(r@.len() as int).len() == t.len() - r@.len());
    if r.len() == 0 {
        None
    } else {
        Some(string_of(r.as_slice()))
    }
}

/// Consumes leading whitespace, then the next word, and returns the word
/// (`None` when there is none): `read_until` stopping at whitespace.
fn read_word(input: &mut MultiPeek<char>) -> (r: Option<String>)
    requires
        old(input).wf(),
    ensures
        final(input).wf(),
        final(input).cursor() == 0,
        final(input).buffered() == if final(input).rest().len() > 0 {
            imax(old(input).buffered() - (old(input).rest().len() - final(input).rest().len()), 1)
        } else {
            0
        },
        final(input).rest() == read_until_spec(old(input).rest()).1,
        match (r, read_until_spec(old(input).rest()).0) {
            (None, None) => true,
            (Some(w), Some(v)) => w@ == v,
            _ => false,
        },
{
    let ghost rest0 = input.rest();
    let is_ws = |c: &char| -> (b: bool)
        ensures
            b == spec_is_whitespace(*c),
        { is_whitespace(*c) };
    let r = read_until(input, is_ws);
    proof {
        let t = skip_ws(rest0);
        let n = t.len() - input.rest().len();
        assert forall|j: int| 0 <= j < n implies #[trigger] non_ws()(t[j]) by {
            assert(is_ws.ensures((&t[j],), false));
        }
        if n < t.len() {
            assert(is_ws.ensures((&t[n],), true));
        }
        lemma_run_len(t, non_ws(), n);
    }
    r
}

/// Looks at the next word without consuming anything: the look-ahead
/// position moves past the whitespace under it and then past the word,
/// which is returned (`None` when there is none).
pub fn peek_next_word(input: &mut MultiPeek<char>) -> (r: Option<String>)
    requires
        old(input).wf(),
    ensures
        final(input).wf(),
        final(input).rest() == old(input).rest(),
        ({
            let rest = old(input).rest();
            let c0 = old(input).cursor() as int;
            let p = c0 + run_len(rest.skip(c0), ws());
            let n = run_len(rest.skip(p), non_ws()) as int;
            &&& p + n <= rest.len()
            &&& final(input).cursor() == p + n
            &&& final(input).buffered() == if c0 < rest.len() {
                imax(old(input).buffered() as int, imin(p + n + 1, rest.len() as int))
            } else {
                old(input).buffered() as int
            }
            &&& match r {
                None => n == 0,
                Some(w) => n > 0 && w@ == rest.subrange(p, p + n),
            }
        }),
{
    let ghost rest = input.rest();
    let ghost b0 = input.buffered();
    let ghost c0 = input.cursor() as int;
    proof {
        input.lemma_bounds();
    }
    discard_ws(input, true);
    let ghost p = input.cursor() as int;
    let ghost b1 = input.buffered();
    let mut r: Vec<char> = Vec::new();
    proof {
        input.lemma_bounds();
        assert(r@ =~= rest.subrange(p, p));
    }
    loop
        invariant_except_break
            r@.len() > 0 ==> input.buffered() == imax(b1 as int, imin(p + r@.len(), rest.len() as int)),
            r@.len() == 0 ==> input.buffered() == b1,
        invariant
            input.wf(),
            input.rest() == rest,
            rest.len() <= usize::MAX,
            0 <= p,
            p + r@.len() <= rest.len(),
            input.cursor() == p + r@.len(),
            r@ == rest.subrange(p, p + r@.len()),
            forall|j: int| p <= j < p + r@.len() ==> !spec_is_whitespace(rest[j]),
        ensures
            input.wf(),
            input.rest() == rest,
            p + r@.len() <= rest.len(),
            input.cursor() == p + r@.len(),
            r@ == rest.subrange(p, p + r@.len()),
            forall|j: int| p <= j < p + r@.len() ==> !spec_is_whitespace(rest[j]),
            p + r@.len() == rest.len() || spec_is_whitespace(rest[p + r@.len()]),
            input.buffered() == if p < rest.len() {
                imax(b1 as int, imin(p + r@.len() + 1, rest.len() as int))
            } else {
                b1 as int
            },
        decreases rest.len() - r@.len(),
    {
        proof {
            input.lemma_bounds();
        }
        match input.peek() {
            Some(c) => {
                let c = *c;
                if is_whitespace(c) {
                    input.unpeek();
                    break ;
                }
                r.push(c);
                assert(r@ =~= rest.subrange(p, p + r@.len()));
            },
            None => {
                break ;
            },
        }
    }
    proof {
        let n = r@.len() as int;
        assert forall|j: int| 0 <= j < n implies !spec_is_whitespace(rest.skip(p)[j]) by {
            assert(rest.skip(p)[j] == rest[p + j]);
        }
        if p + n < rest.len() {
            assert(rest.skip(p)[n] == rest[p + n]);
        }
        lemma_run_len(rest.skip(p), non_ws(), n);
    }
    if r.len() == 0 {
        None
    } else {
        Some(string_of(r.as_slice()))
    }
}


/// Errors in a market price line.
#[derive(Debug, Clone, Copy, PartialEq, Eq)]
pub enum ParseError {
    ExpectedP,
    ExpectedDate,
    ExpectedTimeOrSymbol,
    UnexpectedEndOfInput,
    ExpectedSymbol,
    EndQuoteOfSymbolNotFound,
    ExpectedPrice,
    ExpectedNum,
    InvalidDate,
    InvalidTime,
}

/// A character that may appear in an unquoted commodity symbol: anything
/// but digits, space, tab and the punctuation `.,;:?!-+*/^&|={}[]<>()@`.
pub open spec fn is_sym_char(c: char) -> bool {
    !(is_digit(c) || c == ' ' || c == '\t' || c == '.' || c == ',' || c == ';' || c == ':'
        || c == '?' || c == '!' || c == '-' || c == '+' || c == '*' || c == '/' || c == '^'
        || c == '&' || c == '|' || c == '=' || c == '{' || c == '}' || c == '[' || c == ']'
        || c == '<' || c == '>' || c == '(' || c == ')' || c == '@')
}

pub open spec fn sym_chars() -> spec_fn(char) -> bool {
    |c: char| is_sym_char(c)
}

pub open spec fn not_quote() -> spec_fn(char) -> bool {
    |c: char| c != '"'
}

fn sym_char(c: char) -> (r: bool)
    ensures
        r == is_sym_char(c),
{
    !(('0' <= c && c <= '9') || c == ' ' || c == '\t' || c == '.' || c == ',' || c == ';' || c
        == ':' || c == '?' || c == '!' || c == '-' || c == '+' || c == '*' || c == '/' || c
        == '^' || c == '&' || c == '|' || c == '=' || c == '{' || c == '}' || c == '[' || c
        == ']' || c == '<' || c == '>' || c == '(' || c == ')' || c == '@')
}

/// A commodity symbol at the front of `s`, after whitespace: either a
/// quoted symbol, quotes included, or a run of symbol characters. Gives
/// the symbol and what follows it.
pub open spec fn read_sym_spec(s: Seq<char>) -> Result<(Seq<char>, Seq<char>), ParseError> {
    let t = skip_ws(s);
    if t.len() > 0 && t[0] == '"' {
        let u = t.skip(1);
        let j = run_len(u, not_quote()) as int;
        if j < u.len() {
            Ok((t.take(j + 2), t.skip(j + 2)))
        } else {
            Err(ParseError::EndQuoteOfSymbolNotFound)
        }
    } else {
        let n = run_len(t, sym_chars()) as int;
        if n == 0 {
            Err(ParseError::ExpectedSymbol)
        } else {
            Ok((t.take(n), t.skip(n)))
        }
    }
}

/// Reads a commodity symbol: `"..."` with its quotes, or a run of symbol
/// characters.
pub fn read_sym(input: &mut MultiPeek<char>) -> (r: Result<String, ParseError>)
    requires
        old(input).wf(),
    ensures
        final(input).wf(),
        match (r, read_sym_spec(old(input).rest())) {
            (Ok(w), Ok((v, rest))) => w@ == v && final(input).rest() == rest
                && final(input).cursor() == 0,
            (Err(e), Err(f)) => e == f,
            _ => false,
        },
{
    let ghost rest0 = input.rest();
    discard_ws(input, false);
    let ghost t = input.rest();
    assert(t == skip_ws(rest0));
    proof {
        input.lemma_bounds();
    }
    let mut r: Vec<char> = Vec::new();
    let first = input.peek();
    let is_quote = match first {
        Some(c) => *c == '"',
        None => false,
    };
    if is_quote {
        input.next();
        r.push('"');
        let ghost u = t.skip(1);
        assert(input.rest() =~= u);
        let mut j: usize = 0;
        loop
            invariant
                input.wf(),
                t.len() > 0 && t[0] == '"',
                t == skip_ws(rest0),
                rest0 == old(input).rest(),
                u == t.skip(1),
                u.len() <= usize::MAX,
                j <= u.len(),
                input.rest() == u.skip(j as int),
                r@ == t.take(j + 1),
                forall|k: int| 0 <= k < j ==> u[k] != '"',
            decreases u.len() - j,
        {
            let ghost before = input.rest();
            proof {
                input.lemma_bounds();
            }
            match input.next() {
                Some(c) => {
                    assert(before[0] == u[j as int]);
                    r.push(c);
                    assert(r@ =~= t.take(j + 2));
                    if c == '"' {
                        proof {
                            lemma_run_len(u, not_quote(), j as int);
                            assert(input.rest() =~= t.skip(j + 2));
                        }
                        return Ok(string_of(r.as_slice()));
                    }
                    j = j + 1;
                    assert(input.rest() =~= u.skip(j as int));
                },
                None => {
                    proof {
                        lemma_run_len(u, not_quote(), j as int);
                    }
                    return Err(ParseError::EndQuoteOfSymbolNotFound);
                },
            }
        }
    }
    input.unpeek();
    loop
        invariant
            input.wf(),
            input.cursor() == 0,
            !(t.len() > 0 && t[0] == '"'),
            t == skip_ws(rest0),
            t.len() <= usize::MAX,
            r@.len() <= t.len(),
            input.rest() == t.skip(r@.len() as int),
            r@ == t.take(r@.len() as int),
            forall|k: int| 0 <= k < r@.len() ==> is_sym_char(t[k]),
        ensures
            input.wf(),
            input.cursor() == 0,
            r@.len() <= t.len(),
            input.rest() == t.skip(r@.len() as int),
            r@ == t.take(r@.len() as int),
            forall|k: int| 0 <= k < r@.len() ==> is_sym_char(t[k]),
            r@.len() == t.len() || !is_sym_char(t[r@.len() as int]),
        decreases t.len() - r@.len(),
    {
        let ghost before = input.rest();
        proof {
            input.lemma_bounds();
        }
        match input.peek() {
            Some(c) => {
                let c = *c;
                assert(before[0] == t[r@.len() as int]);
                if sym_char(c) {
                    input.next();
                    r.push(c);
                    assert(input.rest() =~= t.skip(r@.len() as int));
                    assert(r@ =~= t.take(r@.len() as int));
                } else {
                    input.unpeek();
                    break ;
                }
            },
            None => {
                break ;
            },
        }
    }
    proof {
        lemma_run_len(t, sym_chars(), r@.len() as int);
    }
    if r.len() == 0 {
        return Err(ParseError::ExpectedSymbol);
    }
    Ok(string_of(r.as_slice()))
}


/// A character that may start a number: a digit or a sign.
pub open spec fn is_num_start(c: char) -> bool {
    is_digit(c) || c == '+' || c == '-'
}

/// A character of a number: a digit, a sign, `.` or `,`.
pub open spec fn is_num_char(c: char) -> bool {
    is_digit(c) || c == '.' || c == ',' || c == '+' || c == '-'
}

pub open spec fn num_chars() -> spec_fn(char) -> bool {
    |c: char| is_num_char(c)
}

/// A price at the front of `s`, after whitespace: either a number
/// followed by a symbol (`150.25$`, `150.25 $`), or a symbol followed by
/// a number (`$ 150.25`, `$150.25`). Commas in the number are dropped
/// before `Decimal::from_str` reads it. Gives the number, the symbol and
/// what follows.
///
/// `None` where the price is a symbol with no number after it: there the
/// reader stops the program.
pub open spec fn read_commodity_spec(s: Seq<char>) -> Option<
    Result<(Dec, Seq<char>, Seq<char>), ParseError>,
> {
    let t = skip_ws(s);
    if t.len() == 0 {
        Some(Err(ParseError::ExpectedPrice))
    } else if is_num_start(t[0]) {
        let n = run_len(t, num_chars()) as int;
        match decimal_from_str(remove_char(t.take(n), ',')) {
            None => Some(Err(ParseError::ExpectedNum)),
            Some(d) => match read_sym_spec(t.skip(n)) {
                Err(e) => Some(Err(e)),
                Ok((sym, r)) => Some(Ok((d, sym, r))),
            },
        }
    } else {
        match read_sym_spec(t) {
            Err(e) => Some(Err(e)),
            Ok((sym, r)) => match read_until_spec(r).0 {
                None => None,
                Some(w) => match decimal_from_str(remove_char(w, ',')) {
                    None => Some(Err(ParseError::ExpectedNum)),
                    Some(d) => Some(Ok((d, sym, read_until_spec(r).1))),
                },
            },
        }
    }
}

/// A price reads the same number in either order, commas dropped: where
/// the symbol comes first and the word after it, `w`, is written with
/// number characters (digits, signs, points, commas) from a digit or a
/// sign on, the price's number is `Decimal::from_str` of `w` without its
/// commas, and it is the number that the same word gives written before
/// a symbol (`w` followed by `z`, which starts with a character that is
/// not a number character and holds a symbol); where one order refuses
/// the number, so does the other.
pub proof fn law_price_orders_agree(s: Seq<char>, z: Seq<char>)
    requires
        skip_ws(s).len() > 0,
        !is_num_start(skip_ws(s)[0]),
        read_sym_spec(skip_ws(s)) is Ok,
        read_until_spec(read_sym_spec(skip_ws(s))->Ok_0.1).0 is Some,
        ({
            let w = read_until_spec(read_sym_spec(skip_ws(s))->Ok_0.1).0.unwrap();
            &&& is_num_start(w[0])
            &&& forall|k: int| 0 <= k < w.len() ==> is_num_char(#[trigger] w[k])
        }),
        z.len() > 0,
        !is_num_char(z[0]),
        read_sym_spec(z) is Ok,
    ensures
        ({
            let w = read_until_spec(read_sym_spec(skip_ws(s))->Ok_0.1).0.unwrap();
            &&& match (read_commodity_spec(s), read_commodity_spec(w + z)) {
                (Some(Ok((d1, _, _))), Some(Ok((d2, _, _)))) => d1 == d2,
                (Some(Err(e1)), Some(Err(e2))) => e1 == e2,
                _ => false,
            }
            &&& read_commodity_spec(s) matches Some(Ok((d, _, _))) ==> Some(d) == decimal_from_str(remove_char(w, ','))
        }),
{
    let r = read_sym_spec(skip_ws(s))->Ok_0.1;
    lemma_run_len_props(skip_ws(r), non_ws());
    let w = read_until_spec(r).0.unwrap();
    assert(w.len() > 0);
    let u = w + z;
    assert(u[0] == w[0]);
    lemma_run_len(u, ws(), 0);
    assert(skip_ws(u) =~= u);
    assert forall|j: int| 0 <= j < w.len() implies num_chars()(u[j]) by {
        assert(u[j] == w[j]);
    }
    assert(u[w.len() as int] == z[0]);
    lemma_run_len(u, num_chars(), w.len() as int);
    assert(u.take(w.len() as int) =~= w);
    assert(u.skip(w.len() as int) =~= z);
}

fn num_char(c: char) -> (r: bool)
    ensures
        r == is_num_char(c),
{
    ('0' <= c && c <= '9') || c == '.' || c == ',' || c == '+' || c == '-'
}

/// Reads a number as `Decimal::from_str` does, after dropping commas.
fn read_number(cs: &Vec<char>) -> (r: Option<Dec>)
    ensures
        r == decimal_from_str(remove_char(cs@, ',')),
{
    let cl = remove_chars(cs, ',');
    let s = string_of(cl.as_slice());
    rd_from_str(s.as_str())
}

/// Reads a price: a number and a commodity symbol, in either order.
///
/// `None` stands for the input on which the reader stops the program (a
/// symbol with no number after it).
pub fn read_commodity(input: &mut MultiPeek<char>) -> (r: Option<Result<Quantity, ParseError>>)
    requires
        old(input).wf(),
    ensures
        final(input).wf(),
        match (r, read_commodity_spec(old(input).rest())) {
            (None, None) => true,
            (Some(Ok(q)), Some(Ok((d, sym, rest)))) => q.q == d && q.s@ == sym
                && final(input).rest() == rest,
            (Some(Err(e)), Some(Err(f))) => e == f,
            _ => false,
        },
{
    let ghost rest0 = input.rest();
    discard_ws(input, false);
    let ghost t = input.rest();
    assert(t == skip_ws(rest0));
    proof {
        input.lemma_bounds();
    }
    let c = match input.peek() {
        Some(c) => *c,
        None => {
            return Some(Err(ParseError::ExpectedPrice));
        },
    };
    input.unpeek();
    if ('0' <= c && c <= '9') || c == '+' || c == '-' {
        let mut q: Vec<char> = Vec::new();
        loop
            invariant
                input.wf(),
                input.cursor() == 0,
                t.len() <= usize::MAX,
                q@.len() <= t.len(),
                input.rest() == t.skip(q@.len() as int),
                q@ == t.take(q@.len() as int),
                forall|k: int| 0 <= k < q@.len() ==> is_num_char(t[k]),
            ensures
                input.wf(),
                input.cursor() == 0,
                q@.len() <= t.len(),
                input.rest() == t.skip(q@.len() as int),
                q@ == t.take(q@.len() as int),
                forall|k: int| 0 <= k < q@.len() ==> is_num_char(t[k]),
                q@.len() == t.len() || !is_num_char(t[q@.len() as int]),
            decreases t.len() - q@.len(),
        {
            let ghost before = input.rest();
            proof {
                input.lemma_bounds();
            }
            match input.peek() {
                Some(x) => {
                    let x = *x;
                    assert(before[0] == t[q@.len() as int]);
                    if num_char(x) {
                        input.next();
                        q.push(x);
                        assert(input.rest() =~= t.skip(q@.len() as int));
                        assert(q@ =~= t.take(q@.len() as int));
                    } else {
                        input.unpeek();
                        break ;
                    }
                },
                None => {
                    break ;
                },
            }
        }
        proof {
            lemma_run_len(t, num_chars(), q@.len() as int);
        }
        let d = match read_number(&q) {
            Some(d) => d,
            None => {
                return Some(Err(ParseError::ExpectedNum));
            },
        };
        let s = match read_sym(input) {
            Ok(s) => s,
            Err(e) => {
                return Some(Err(e));
            },
        };
        return Some(Ok(Quantity { q: d, s: Symbol::new(s.as_str()) }));
    }
    let s = match read_sym(input) {
        Ok(s) => s,
        Err(e) => {
            return Some(Err(e));
        },
    };
    let w = match read_word(input) {
        Some(w) => w,
        None => {
            return None;
        },
    };
    let wc = chars_of(w.as_str());
    let d = match read_number(&wc) {
        Some(d) => d,
        None => {
            return Some(Err(ParseError::ExpectedNum));
        },
    };
    Some(Ok(Quantity { q: d, s: Symbol::new(s.as_str()) }))
}


/// The ASCII code of a decimal digit.
pub open spec fn is_digit_byte(x: u8) -> bool {
    48 <= x <= 57
}

/// The number written by the decimal digits `b`.
pub open spec fn digits_value(b: Seq<u8>) -> int
    decreases b.len(),
{
    if b.len() == 0 {
        0
    } else {
        digits_value(b.drop_last()) * 10 + (b.last() - 48)
    }
}

/// One or more decimal digits, read as a number.
pub open spec fn digits_text(b: Seq<u8>) -> Option<int> {
    if b.len() >= 1 && forall|i: int| 0 <= i < b.len() ==> is_digit_byte(b[i]) {
        Some(digits_value(b))
    } else {
        None
    }
}

/// An integer as `str::parse` reads it: an optional sign (`-` only when
/// `signed`) followed by one or more decimal digits, and nothing else.
pub open spec fn int_text(b: Seq<u8>, signed: bool) -> Option<int> {
    if b.len() > 0 && b[0] == 43u8 {
        digits_text(b.skip(1))
    } else if signed && b.len() > 0 && b[0] == 45u8 {
        match digits_text(b.skip(1)) {
            Some(v) => Some(-v),
            None => None,
        }
    } else {
        digits_text(b)
    }
}

/// Reads an integer of at most four bytes as `str::parse` does.
fn parse_small_int(b: &[u8], signed: bool) -> (r: Option<i32>)
    requires
        b@.len() <= 4,
    ensures
        match (r, int_text(b@, signed)) {
            (None, None) => true,
            (Some(x), Some(v)) => x == v,
            _ => false,
        },
        !signed ==> (r matches Some(x) ==> x >= 0),
{
    let n = b.len();
    let mut start: usize = 0;
    let mut neg = false;
    if n > 0 && b[0] == 43u8 {
        start = 1;
    } else if signed && n > 0 && b[0] == 45u8 {
        start = 1;
        neg = true;
    }
    let ghost body = b@.skip(start as int);
    if start == 0 {
        assert(b@.skip(0) =~= b@);
    }
    proof {
        reveal_with_fuel(pow10, 5);
    }
    if start >= n {
        assert(body.len() == 0);
        return None;
    }
    let mut v: i32 = 0;
    let mut i = start;
    while i < n
        invariant
            start <= i <= n == b@.len() <= 4,
            body == b@.skip(start as int),
            forall|k: int| start <= k < i ==> is_digit_byte(b@[k]),
            v == digits_value(body.take(i - start)),
            int_text(b@, signed) == match digits_text(body) {
                Some(x) => Some(if neg { -x } else { x }),
                None => None,
            },
            !signed ==> !neg,
            0 <= v < pow10((i - start) as nat),
            pow10(0) == 1 && pow10(1) == 10 && pow10(2) == 100 && pow10(3) == 1000,
        decreases n - i,
    {
        let x = b[i];
        if !(48u8 <= x && x <= 57u8) {
            assert(body[i - start] == x);
            return None;
        }
        assert(body.take(i + 1 - start).drop_last() =~= body.take(i - start));
        assert(body.take(i + 1 - start).last() == x);
        v = v * 10 + (x - 48u8) as i32;
        i = i + 1;
    }
    assert(body.take(n - start) =~= body);
    assert forall|k: int| 0 <= k < body.len() implies is_digit_byte(body[k]) by {
        assert(body[k] == b@[start + k]);
    }
    if neg {
        Some(-v)
    } else {
        Some(v)
    }
}

/// The day written at the front of a date word `w` as `YYYY?MM?DD`
/// (bytes 0..4, 5..7 and 8..10 of its UTF-8 text), or an error.
///
/// `None` where slicing the word at those byte positions is impossible
/// (too short, or inside a character): there the reader stops the
/// program.
pub open spec fn date_spec(w: Seq<char>) -> Option<Result<(int, int, int), ParseError>> {
    let b = vstd::utf8::encode_utf8(w);
    if !vstd::utf8::is_char_boundary(b, 4) {
        None
    } else {
        match int_text(b.subrange(0, 4), true) {
            None => Some(Err(ParseError::ExpectedDate)),
            Some(y) => if !(vstd::utf8::is_char_boundary(b, 5) && vstd::utf8::is_char_boundary(b, 7)) {
                None
            } else {
                match int_text(b.subrange(5, 7), false) {
                    None => Some(Err(ParseError::ExpectedDate)),
                    Some(m) => if !(vstd::utf8::is_char_boundary(b, 8) && vstd::utf8::is_char_boundary(b, 10)) {
                        None
                    } else {
                        match int_text(b.subrange(8, 10), false) {
                            None => Some(Err(ParseError::ExpectedDate)),
                            Some(d) => if valid_ymd(y, m, d) {
                                Some(Ok((y, m, d)))
                            } else {
                                Some(Err(ParseError::InvalidDate))
                            },
                        }
                    },
                }
            },
        }
    }
}

/// The number of ASCII digits at the front of `b`.
pub open spec fn digit_run(b: Seq<u8>) -> nat
    decreases b.len(),
{
    if b.len() > 0 && is_digit_byte(b[0]) {
        1 + digit_run(b.drop_first())
    } else {
        0
    }
}

/// What `atoi::atoi::<u32>` reads at the front of `b`: an optional sign
/// (`+` or `-`), then the longest run of ASCII digits; the bytes after
/// it are ignored. Neither sign nor digit: `None`. After `+`, or without
/// a sign, the value of the digits (none at all counting as zero) where
/// it fits a `u32`, `None` otherwise. After `-`, zero when every digit is
/// `0` (or there is none), `None` otherwise.
pub open spec fn atoi_u32_spec(b: Seq<u8>) -> Option<u32> {
    let signed = b.len() > 0 && (b[0] == 43u8 || b[0] == 45u8);
    let off: int = if signed {
        1
    } else {
        0
    };
    let n = digit_run(b.skip(off)) as int;
    let ds = b.subrange(off, off + n);
    if !signed && n == 0 {
        None
    } else if signed && b[0] == 45u8 {
        if forall|i: int| 0 <= i < n ==> ds[i] == 48u8 {
            Some(0u32)
        } else {
            None
        }
    } else if digits_value(ds) <= u32::MAX {
        Some(digits_value(ds) as u32)
    } else {
        None
    }
}

/// `atoi::atoi::<u32>`. Claims: the result is `atoi_u32_spec` of the
/// bytes, as the crate's `from_radix_10_signed_checked` computes it: the
/// sign is taken from the first byte, digits are read while there are
/// some, a `u32` accumulates them with checked multiplication and
/// addition (subtraction after `-`), and a text that starts with neither
/// sign nor digit gives `None`.
#[verifier::external_body]
fn atoi_u32_of(text: &[u8]) -> (r: Option<u32>)
    ensures
        r == atoi_u32_spec(text@),
{
    atoi::atoi::<u32>(text)
}

/// Date, time and what follows, at the front of `s`, read by a cursor
/// that holds `b` characters of `s` in its look-ahead buffer: a date
/// word, then, if the next word is 8 bytes long with `:` as its third
/// byte, a time `HH:MM:SS`, which is then consumed together with the
/// character after it and whatever else the buffer still holds;
/// otherwise midnight, and the next word stays.
pub open spec fn read_date_time_spec(s: Seq<char>, b: int) -> Option<
    Result<((int, int, int, int, int, int), Seq<char>), ParseError>,
> {
    let (w, r1) = read_until_spec(s);
    match w {
        None => Some(Err(ParseError::ExpectedDate)),
        Some(w) => match date_spec(w) {
            None => None,
            Some(Err(e)) => Some(Err(e)),
            Some(Ok((y, m, d))) => {
                let p = run_len(r1, ws()) as int;
                let n = run_len(r1.skip(p), non_ws()) as int;
                if n == 0 {
                    Some(Err(ParseError::UnexpectedEndOfInput))
                } else {
                    let tb = vstd::utf8::encode_utf8(r1.subrange(p, p + n));
                    if tb.len() == 8 && tb[2] == 58u8 {
                        match (
                            atoi_u32_spec(tb.subrange(0, 2)),
                            atoi_u32_spec(tb.subrange(3, 5)),
                            atoi_u32_spec(tb.subrange(6, 8)),
                        ) {
                            (Some(h), Some(mi), Some(sec)) => if valid_hms(
                                h as int,
                                mi as int,
                                sec as int,
                            ) {
                                Some(
                                    Ok(
                                        (
                                            (y, m, d, h as int, mi as int, sec as int),
                                            r1.skip(
                                                imax(
                                                    b - (s.len() - r1.len()),
                                                    imin(p + n + 1, r1.len() as int),
                                                ),
                                            ),
                                        ),
                                    ),
                                )
                            } else {
                                Some(Err(ParseError::InvalidTime))
                            },
                            _ => Some(Err(ParseError::ExpectedTimeOrSymbol)),
                        }
                    } else {
                        Some(Ok(((y, m, d, 0, 0, 0), r1)))
                    }
                }
            },
        },
    }
}

/// `dt` is the day and time `t`.
pub open spec fn dt_is(dt: DateTime, t: (int, int, int, int, int, int)) -> bool {
    &&& dt.date.year() == t.0
    &&& dt.date.month() == t.1
    &&& dt.date.day() == t.2
    &&& dt.time.hour() == t.3
    &&& dt.time.minute() == t.4
    &&& dt.time.second() == t.5
}

/// Reads a date and an optional time.
///
/// `None` stands for the input on which the reader stops the program.
pub fn read_date_time(input: &mut MultiPeek<char>) -> (r: Option<Result<DateTime, ParseError>>)
    requires
        old(input).wf(),
    ensures
        final(input).wf(),
        match (r, read_date_time_spec(old(input).rest(), old(input).buffered() as int)) {
            (None, None) => true,
            (Some(Ok(dt)), Some(Ok((t, rest)))) => dt_is(dt, t) && final(input).rest() == rest,
            (Some(Err(e)), Some(Err(f))) => e == f,
            _ => false,
        },
{
    let ghost rest0 = input.rest();
    let try_date = match read_word(input) {
        Some(w) => w,
        None => {
            return Some(Err(ParseError::ExpectedDate));
        },
    };
    let ghost r1 = input.rest();
    assert(r1.skip(0) =~= r1);
    let ds = try_date.as_str();
    let b = ds.as_bytes();
    if !ds.is_char_boundary(4) {
        return None;
    }
    let year = match parse_small_int(&b[0..4], true) {
        Some(y) => y,
        None => {
            return Some(Err(ParseError::ExpectedDate));
        },
    };
    if !(ds.is_char_boundary(5) && ds.is_char_boundary(7)) {
        return None;
    }
    let month = match parse_small_int(&b[5..7], false) {
        Some(m) => m,
        None => {
            return Some(Err(ParseError::ExpectedDate));
        },
    };
    if !(ds.is_char_boundary(8) && ds.is_char_boundary(10)) {
        return None;
    }
    let day = match parse_small_int(&b[8..10], false) {
        Some(d) => d,
        None => {
            return Some(Err(ParseError::ExpectedDate));
        },
    };
    let date = match Date::from_ymd(year, month as u32, day as u32) {
        Some(d) => d,
        None => {
            return Some(Err(ParseError::InvalidDate));
        },
    };
    let try_time = match peek_next_word(input) {
        Some(w) => w,
        None => {
            return Some(Err(ParseError::UnexpectedEndOfInput));
        },
    };
    let tb = try_time.as_str().as_bytes();
    if tb.len() == 8 && tb[2] == 58u8 {
        let hour = atoi_u32_of(&tb[0..2]);
        let min = atoi_u32_of(&tb[3..5]);
        let sec = atoi_u32_of(&tb[6..8]);
        let (h, mi, se) = match (hour, min, sec) {
            (Some(h), Some(mi), Some(se)) => (h, mi, se),
            _ => {
                return Some(Err(ParseError::ExpectedTimeOrSymbol));
            },
        };
        let time = match Time::from_hms(h, mi, se) {
            Some(t) => t,
            None => {
                return Some(Err(ParseError::InvalidTime));
            },
        };
        proof {
            input.lemma_bounds();
        }
        input.consume_peeked();
        return Some(Ok(DateTime { date, time }));
    }
    Some(Ok(DateTime { date, time: Time::midnight() }))
}

/// A market price line: `P`, then date and optional time, the symbol
/// being priced, and its price.
pub open spec fn market_price_spec(line: Seq<char>) -> Option<
    Result<((int, int, int, int, int, int), Seq<char>, Dec, Seq<char>), ParseError>,
> {
    if line.len() == 0 {
        None
    } else if line[0] != 'P' {
        Some(Err(ParseError::ExpectedP))
    } else {
        match read_date_time_spec(skip_ws(line.skip(1)), 1) {
            None => None,
            Some(Err(e)) => Some(Err(e)),
            Some(Ok((dt, s2))) => match read_sym_spec(s2) {
                Err(e) => Some(Err(e)),
                Ok((sym, s3)) => match read_commodity_spec(s3) {
                    None => None,
                    Some(Err(e)) => Some(Err(e)),
                    Some(Ok((d, psym, _))) => Some(Ok((dt, sym, d, psym))),
                },
            },
        }
    }
}

/// A market price entry, as in `P 2023-01-01 USD 1.2345 EUR`.
#[derive(Debug, Clone, PartialEq)]
pub struct MarketPrice {
    pub date_time: DateTime,
    pub sym: Symbol,
    pub price: Quantity,
}

/// `mp` is the market price `v`.
pub open spec fn market_price_is(
    mp: MarketPrice,
    v: ((int, int, int, int, int, int), Seq<char>, Dec, Seq<char>),
) -> bool {
    &&& dt_is(mp.date_time, v.0)
    &&& mp.sym@ == v.1
    &&& mp.price.q == v.2
    &&& mp.price.s@ == v.3
}

/// Parses a market price line, `P DATE[ TIME] SYM PRICE` or
/// `P DATE[ TIME] PRICE SYM`, on every input: `None` stands for the lines
/// on which `parse_market_price_line` would stop the program (an empty
/// line, a date word too short to slice, a symbol price with no number).
pub fn parse_market_price_line_checked(line: &str) -> (r: Option<Result<MarketPrice, ParseError>>)
    ensures
        match (r, market_price_spec(line@)) {
            (None, None) => true,
            (Some(Ok(mp)), Some(Ok(v))) => market_price_is(mp, v),
            (Some(Err(e)), Some(Err(f))) => e == f,
            _ => false,
        },
{
    let cs = chars_of(line);
    let mut iter = MultiPeek::new(cs);
    let c = match iter.next() {
        Some(c) => c,
        None => {
            return None;
        },
    };
    if c != 'P' {
        return Some(Err(ParseError::ExpectedP));
    }
    assert(iter.rest() =~= line@.skip(1));
    let ghost s1 = iter.rest();
    let _nws = discard_ws(&mut iter, false);
    proof {
        lemma_run_len_props(s1, ws());
        let s2 = iter.rest();
        assert(s2.len() == s1.len() - _nws);
        if s2.len() == 0 {
            assert(skip_ws(s2) =~= s2);
            assert(run_len(s2, non_ws()) == 0);
        }
        assert(read_date_time_spec(s2, iter.buffered() as int) == read_date_time_spec(s2, 1));
    }
    let dt = match read_date_time(&mut iter) {
        None => {
            return None;
        },
        Some(Err(e)) => {
            return Some(Err(e));
        },
        Some(Ok(dt)) => dt,
    };
    let sym = match read_sym(&mut iter) {
        Err(e) => {
            return Some(Err(e));
        },
        Ok(s) => s,
    };
    let price = match read_commodity(&mut iter) {
        None => {
            return None;
        },
        Some(Err(e)) => {
            return Some(Err(e));
        },
        Some(Ok(q)) => q,
    };
    Some(Ok(MarketPrice { date_time: dt, sym: Symbol::new(sym.as_str()), price }))
}

/// Parses a market price line, `P DATE[ TIME] SYM PRICE` or
/// `P DATE[ TIME] PRICE SYM`.
pub fn parse_market_price_line(line: &str) -> (r: Result<MarketPrice, ParseError>)
    requires
        market_price_spec(line@) is Some,
    ensures
        match (r, market_price_spec(line@)) {
            (Ok(mp), Some(Ok(v))) => market_price_is(mp, v),
            (Err(e), Some(Err(f))) => e == f,
            _ => false,
        },
{
    match parse_market_price_line_checked(line) {
        Some(r) => r,
        None => Err(ParseError::ExpectedP),
    }
}

/// What the lines of a price database give, line after line: a blank
/// line nothing; a line that parses its market price (see
/// `parse_market_price_line_checked`); any other line an error with its
/// position, and the parse error where there is one.
pub open spec fn price_lines_ok(
    lines: Seq<Seq<char>>,
    mps: Seq<MarketPrice>,
    errs: Seq<(usize, Option<ParseError>)>,
) -> bool
    decreases lines.len(),
{
    if lines.len() == 0 {
        mps.len() == 0 && errs.len() == 0
    } else {
        let l = lines.last();
        let n = (lines.len() - 1) as usize;
        let init = lines.drop_last();
        if trim_spec(l).len() == 0 {
            price_lines_ok(init, mps, errs)
        } else {
            match market_price_spec(l) {
                Some(Ok(v)) => mps.len() > 0 && market_price_is(mps.last(), v) && price_lines_ok(
                    init,
                    mps.drop_last(),
                    errs,
                ),
                Some(Err(f)) => errs.len() > 0 && errs.last() == (n, Some(f)) && price_lines_ok(
                    init,
                    mps,
                    errs.drop_last(),
                ),
                None => errs.len() > 0 && errs.last() == (n, None::<ParseError>) && price_lines_ok(
                    init,
                    mps,
                    errs.drop_last(),
                ),
            }
        }
    }
}

/// Parses the lines of a price database (see `price_lines_ok`): the
/// market prices of the lines that parse, in order, and the position and
/// error of each line that does not; blank lines are skipped.
pub fn parse_price_lines(lines: &Vec<String>) -> (r: (Vec<MarketPrice>, Vec<(usize, Option<ParseError>)>))
    ensures
        price_lines_ok(lines@.map_values(|l: String| l@), r.0@, r.1@),
{
    let ghost lv = lines@.map_values(|l: String| l@);
    let mut mps: Vec<MarketPrice> = Vec::new();
    let mut errs: Vec<(usize, Option<ParseError>)> = Vec::new();
    let mut i: usize = 0;
    assert(lv.take(0) =~= Seq::<Seq<char>>::empty());
    while i < lines.len()
        invariant
            i <= lines@.len(),
            lv == lines@.map_values(|l: String| l@),
            price_lines_ok(lv.take(i as int), mps@, errs@),
        decreases lines@.len() - i,
    {
        let ghost t = lv.take(i + 1);
        assert(t.drop_last() =~= lv.take(i as int));
        assert(t.last() == lines@[i as int]@);
        let line = lines[i].as_str();
        let cs = chars_of(line);
        let trimmed = trim_chars(cs.as_slice());
        if trimmed.len() > 0 {
            let ghost m0 = mps@;
            let ghost e0 = errs@;
            match parse_market_price_line_checked(line) {
                Some(Ok(mp)) => {
                    mps.push(mp);
                    assert(mps@.drop_last() =~= m0);
                },
                Some(Err(e)) => {
                    errs.push((i, Some(e)));
                    assert(errs@.drop_last() =~= e0);
                },
                None => {
                    errs.push((i, None));
                    assert(errs@.drop_last() =~= e0);
                },
            }
        }
        i = i + 1;
    }
    assert(lv.take(i as int) =~= lv);
    (mps, errs)
}

} // verus!
