//! How quantities are written: numbers rounded to a precision, with a
//! comma between groups of three digits of the integer part, after the
//! commodity symbol.

use vstd::prelude::*;

use crate::decimal::{decimal_format, format_len, Dec};
use crate::quantity::Quantity;
use crate::text::{chars_of, string_of};

verus! {

/// The characters of `cs` up to position `k`, with a comma before each
/// character (but the first) that starts a group of three digits
/// counted from the end.
pub open spec fn grouped_upto(cs: Seq<char>, k: nat) -> Seq<char>
    decreases k,
{
    if k == 0 || k > cs.len() {
        Seq::empty()
    } else {
        let i = k - 1;
        grouped_upto(cs, i as nat) + if i > 0 && (cs.len() - i) % 3 == 0 {
            seq![',', cs[i]]
        } else {
            seq![cs[i]]
        }
    }
}

/// `s` with a comma between groups of three characters counted from the
/// end, a leading `-` kept in front.
pub open spec fn thousands_spec(s: Seq<char>) -> Seq<char> {
    if s.len() > 0 && s[0] == '-' {
        seq!['-'] + grouped_upto(s.skip(1), (s.len() - 1) as nat)
    } else {
        grouped_upto(s, s.len())
    }
}

fn grouped(cs: &Vec<char>, out: &mut Vec<char>)
    ensures
        final(out)@ == old(out)@ + grouped_upto(cs@, cs@.len()),
{
    let ghost start = out@;
    let n = cs.len();
    let mut i: usize = 0;
    while i < n
        invariant
            n == cs@.len(),
            i <= n,
            out@ == start + grouped_upto(cs@, i as nat),
        decreases n - i,
    {
        if i > 0 && (n - i) % 3 == 0 {
            out.push(',');
        }
        out.push(cs[i]);
        assert(out@ =~= start + grouped_upto(cs@, (i + 1) as nat));
        i = i + 1;
    }
}

/// Puts a comma between each group of three digits of an integer
/// written in decimal: `"-1234567"` becomes `"-1,234,567"`.
pub fn add_thousands_separator(s: &str) -> (r: String)
    ensures
        r@ == thousands_spec(s@),
{
    let cs = chars_of(s);
    let mut out: Vec<char> = Vec::new();
    if cs.len() > 0 && cs[0] == '-' {
        out.push('-');
        let mut rest: Vec<char> = Vec::new();
        let mut i: usize = 1;
        while i < cs.len()
            invariant
                1 <= i <= cs@.len(),
                rest@ == cs@.subrange(1, i as int),
            decreases cs@.len() - i,
        {
            rest.push(cs[i]);
            assert(rest@ =~= cs@.subrange(1, i + 1));
            i = i + 1;
        }
        assert(rest@ =~= s@.skip(1));
        grouped(&rest, &mut out);
        assert(out@ =~= thousands_spec(s@));
    } else {
        grouped(&cs, &mut out);
        assert(out@ =~= thousands_spec(s@));
    }
    string_of(out.as_slice())
}

/// `s` without its commas.
pub open spec fn without_commas(s: Seq<char>) -> Seq<char>
    decreases s.len(),
{
    if s.len() == 0 {
        s
    } else if s.last() == ',' {
        without_commas(s.drop_last())
    } else {
        without_commas(s.drop_last()).push(s.last())
    }
}

proof fn lemma_without_commas_add(a: Seq<char>, b: Seq<char>)
    ensures
        without_commas(a + b) == without_commas(a) + without_commas(b),
    decreases b.len(),
{
    if b.len() == 0 {
        assert(a + b =~= a);
        assert(without_commas(a) + without_commas(b) =~= without_commas(a));
    } else {
        assert((a + b).drop_last() =~= a + b.drop_last());
        assert((a + b).last() == b.last());
        lemma_without_commas_add(a, b.drop_last());
    }
}

proof fn lemma_grouped_roundtrip(cs: Seq<char>, k: nat)
    requires
        k <= cs.len(),
        forall|i: int| 0 <= i < cs.len() ==> cs[i] != ',',
    ensures
        without_commas(grouped_upto(cs, k)) == cs.take(k as int),
    decreases k,
{
    if k > 0 {
        let i = (k - 1) as int;
        lemma_grouped_roundtrip(cs, (k - 1) as nat);
        let piece = if i > 0 && (cs.len() - i) % 3 == 0 {
            seq![',', cs[i]]
        } else {
            seq![cs[i]]
        };
        lemma_without_commas_add(grouped_upto(cs, (k - 1) as nat), piece);
        reveal_with_fuel(without_commas, 3);
        if i > 0 && (cs.len() - i) % 3 == 0 {
            assert(piece.drop_last() =~= seq![',']);
            assert(piece.drop_last().drop_last() =~= Seq::<char>::empty());
            assert(piece.last() == cs[i]);
        } else {
            assert(piece.drop_last() =~= Seq::<char>::empty());
            assert(piece.last() == cs[i]);
        }
        assert(without_commas(piece) =~= seq![cs[i]]);
        assert(cs.take(i) + seq![cs[i]] =~= cs.take(k as int));
    }
}

/// Taking the commas out of an integer grouped by thousands gives the
/// integer back.
pub proof fn lemma_thousands_roundtrip(s: Seq<char>)
    requires
        forall|i: int| 0 <= i < s.len() ==> s[i] != ',',
    ensures
        without_commas(thousands_spec(s)) == s,
{
    if s.len() > 0 && s[0] == '-' {
        let t = s.skip(1);
        lemma_grouped_roundtrip(t, t.len());
        lemma_without_commas_add(seq!['-'], grouped_upto(t, t.len()));
        reveal_with_fuel(without_commas, 2);
        assert(seq!['-'].drop_last() =~= Seq::<char>::empty());
        assert(seq!['-'].last() == '-');
        assert(without_commas(seq!['-']) =~= seq!['-']);
        assert(t.take(t.len() as int) =~= t);
        assert(seq!['-'] + t =~= s);
    } else {
        lemma_grouped_roundtrip(s, s.len());
        assert(s.take(s.len() as int) =~= s);
    }
}

/// The position of the first `c` in `s`, or `-1`.
pub open spec fn index_of(s: Seq<char>, c: char) -> int
    decreases s.len(),
{
    if s.len() == 0 {
        -1
    } else if s[0] == c {
        0
    } else {
        let i = index_of(s.skip(1), c);
        if i < 0 {
            -1
        } else {
            i + 1
        }
    }
}

/// The text before the first `.` of `f` (all of it when there is none).
pub open spec fn integer_part(f: Seq<char>) -> Seq<char> {
    let d = index_of(f, '.');
    if d < 0 {
        f
    } else {
        f.take(d)
    }
}

/// The text between the first `.` of `f` and the next one (or the end);
/// empty when there is no `.`.
pub open spec fn fraction_part(f: Seq<char>) -> Seq<char> {
    let d = index_of(f, '.');
    if d < 0 {
        Seq::empty()
    } else {
        let after = f.skip(d + 1);
        let e = index_of(after, '.');
        if e < 0 {
            after
        } else {
            after.take(e)
        }
    }
}

/// A number written by `rust_decimal` with `precision` digits after the
/// point, grouped by thousands: the integer part with separators, then
/// the point and the fraction when there is one.
pub open spec fn manual_spec(f: Seq<char>) -> Seq<char> {
    let frac = fraction_part(f);
    if frac.len() == 0 {
        thousands_spec(integer_part(f))
    } else {
        thousands_spec(integer_part(f)) + seq!['.'] + frac
    }
}

proof fn lemma_index_of(s: Seq<char>, c: char)
    ensures
        -1 <= index_of(s, c) < s.len(),
        index_of(s, c) >= 0 ==> s[index_of(s, c)] == c,
        forall|j: int| 0 <= j < s.len() && (index_of(s, c) < 0 || j < index_of(s, c)) ==> s[j] != c,
    decreases s.len(),
{
    if s.len() > 0 && s[0] != c {
        lemma_index_of(s.skip(1), c);
        assert forall|j: int| 0 < j < s.len() implies s[j] == s.skip(1)[j - 1] by {}
    }
}

/// The position of the first `c` of `cs` at or after `from`.
fn find_char(cs: &Vec<char>, c: char, from: usize) -> (r: Option<usize>)
    requires
        from <= cs@.len(),
    ensures
        match r {
            Some(i) => i - from == index_of(cs@.skip(from as int), c) && from <= i < cs@.len(),
            None => index_of(cs@.skip(from as int), c) < 0,
        },
{
    let ghost t = cs@.skip(from as int);
    proof {
        lemma_index_of(t, c);
    }
    let mut i = from;
    while i < cs.len()
        invariant
            from <= i <= cs@.len(),
            t == cs@.skip(from as int),
            -1 <= index_of(t, c) < t.len(),
            index_of(t, c) >= 0 ==> t[index_of(t, c)] == c,
            forall|j: int| 0 <= j < t.len() && (index_of(t, c) < 0 || j < index_of(t, c)) ==> t[j] != c,
            forall|j: int| from <= j < i ==> cs@[j] != c,
        decreases cs@.len() - i,
    {
        if cs[i] == c {
            proof {
                assert(t[i - from] == c);
                if index_of(t, c) < 0 || i - from < index_of(t, c) {
                    assert(t[i - from] != c);
                }
                if index_of(t, c) < i - from {
                    assert(cs@[from + index_of(t, c)] == c);
                }
            }
            return Some(i);
        }
        i = i + 1;
    }
    proof {
        if index_of(t, c) >= 0 {
            assert(cs@[from + index_of(t, c)] == c);
        }
    }
    None
}

fn sub_chars(cs: &Vec<char>, a: usize, b: usize) -> (r: Vec<char>)
    requires
        a <= b <= cs@.len(),
    ensures
        r@ == cs@.subrange(a as int, b as int),
{
    let mut r: Vec<char> = Vec::new();
    let mut i = a;
    while i < b
        invariant
            a <= i <= b,
            b <= cs@.len(),
            r@ == cs@.subrange(a as int, i as int),
        decreases b - i,
    {
        r.push(cs[i]);
        assert(r@ =~= cs@.subrange(a as int, i + 1));
        i = i + 1;
    }
    r
}

/// Writes `value` with `precision` digits after the point, its integer
/// part grouped by thousands.
pub fn format_decimal_manual(value: Dec, precision: usize) -> (r: String)
    requires
        format_len(value, precision as nat) <= 32,
    ensures
        r@ == manual_spec(decimal_format(value, precision as nat)),
{
    let formatted = value.to_string_prec(precision);
    let cs = chars_of(formatted.as_str());
    let ghost f = cs@;
    let n = cs.len();
    let (int_part, frac) = match find_char(&cs, '.', 0) {
        Some(d) => {
            assert(cs@.skip(0) =~= cs@);
            let ip = sub_chars(&cs, 0, d);
            assert(ip@ =~= integer_part(f));
            let fr = match find_char(&cs, '.', d + 1) {
                Some(e) => sub_chars(&cs, d + 1, e),
                None => sub_chars(&cs, d + 1, n),
            };
            proof {
                let after = f.skip(d + 1);
                assert(cs@.skip(d + 1) =~= after);
                if index_of(after, '.') < 0 {
                    assert(fr@ =~= after);
                } else {
                    assert(fr@ =~= after.take(index_of(after, '.')));
                }
            }
            (ip, fr)
        },
        None => {
            assert(cs@.skip(0) =~= cs@);
            (cs, Vec::new())
        },
    };
    assert(frac@ =~= fraction_part(f));
    let int_str = string_of(int_part.as_slice());
    let grouped_int = add_thousands_separator(int_str.as_str());
    if frac.len() == 0 {
        grouped_int
    } else {
        let mut out = chars_of(grouped_int.as_str());
        out.push('.');
        let mut i: usize = 0;
        let ghost base = out@;
        while i < frac.len()
            invariant
                i <= frac@.len(),
                out@ == base + frac@.take(i as int),
            decreases frac@.len() - i,
        {
            out.push(frac[i]);
            assert(out@ =~= base + frac@.take(i + 1));
            i = i + 1;
        }
        assert(frac@.take(frac@.len() as int) =~= frac@);
        string_of(out.as_slice())
    }
}

impl Quantity {
    /// The quantity as written in reports: the number with `precision`
    /// digits after the point (3 when not given) grouped by thousands,
    /// after the symbol and a space when the symbol is not empty.
    pub fn to_text(&self, precision: Option<usize>) -> (r: String)
        requires
            format_len(
                self.q,
                match precision {
                    Some(p) => p as nat,
                    None => 3nat,
                },
            ) <= 32,
        ensures
            r@ == ({
                let p = match precision {
                    Some(p) => p as nat,
                    None => 3nat,
                };
                let q = manual_spec(decimal_format(self.q, p));
                if self.s@.len() == 0 {
                    q
                } else {
                    self.s@ + seq![' '] + q
                }
            }),
    {
        let p = match precision {
            Some(p) => p,
            None => 3,
        };
        let q = format_decimal_manual(self.q, p);
        if self.s.is_empty() {
            return q;
        }
        let mut out = chars_of(self.s.name().as_str());
        out.push(' ');
        let qs = chars_of(q.as_str());
        let ghost base = out@;
        let mut i: usize = 0;
        while i < qs.len()
            invariant
                i <= qs@.len(),
                out@ == base + qs@.take(i as int),
            decreases qs@.len() - i,
        {
            out.push(qs[i]);
            assert(out@ =~= base + qs@.take(i + 1));
            i = i + 1;
        }
        assert(qs@.take(qs@.len() as int) =~= qs@);
        string_of(out.as_slice())
    }
}

} // verus!
