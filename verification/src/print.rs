//! The print report: transactions written back in journal format.

use vstd::prelude::*;
use vstd::utf8::{encode_scalar, encode_utf8};

use crate::date::Date;
use crate::decimal::{decimal_format, format_len};
use crate::display::manual_spec;
use crate::ledger::Query;
use crate::misc::BetweenDate;
use crate::parser::State;
use crate::quantity::Quantity;
use crate::text::string_of;
use crate::xact::{matches_query, xact_matches_query, LotPrice, Posting, Xact};

verus! {

/// Column at which the amounts of postings start.
pub const AMOUNT_COL: usize = 48usize;

/// The transactions of `xs` dated within `b` that `q` selects, in
/// order.
pub open spec fn print_selection(xs: Seq<Xact>, q: Query, b: BetweenDate) -> Seq<Xact> {
    xs.filter(|x: Xact| b.contains(x.date.txdate) && xact_matches_query(x, q))
}

/// The transactions dated from `from` to `to` (each bound included when
/// given) with a posting to an account that `qry` matches (every
/// transaction when `qry` has no pattern), in order.
pub fn print<'a>(xacts: &'a [Xact], qry: &Query, from: Option<Date>, to: Option<Date>) -> (r: Vec<&'a Xact>)
    ensures
        r@.map_values(|x: &'a Xact| *x) == print_selection(xacts@, *qry, BetweenDate::with_bounds(from, to)),
{
    let between = BetweenDate::new(from, to);
    let ghost b = BetweenDate::with_bounds(from, to);
    let ghost xs = xacts@;
    let mut out: Vec<&'a Xact> = Vec::new();
    let mut i: usize = 0;
    proof {
        reveal(Seq::filter);
    }
    assert(xs.take(0) =~= Seq::<Xact>::empty());
    assert(out@.map_values(|x: &'a Xact| *x) =~= Seq::<Xact>::empty());
    while i < xacts.len()
        invariant
            i <= xs.len(),
            xs == xacts@,
            between == b,
            out@.map_values(|x: &'a Xact| *x) == print_selection(xs.take(i as int), *qry, b),
        decreases xs.len() - i,
    {
        proof {
            reveal(Seq::filter);
        }
        assert(xs.take(i + 1).drop_last() =~= xs.take(i as int));
        assert(xs.take(i + 1).last() == xs[i as int]);
        let x: &'a Xact = &xacts[i];
        if between.check(x.date.txdate) && matches_query(x, qry) {
            let ghost before = out@.map_values(|y: &'a Xact| *y);
            out.push(x);
            assert(out@.map_values(|y: &'a Xact| *y) =~= before.push(*x));
        }
        i = i + 1;
    }
    assert(xs.take(i as int) =~= xs);
    out
}

/// The character of the digit `n`.
pub open spec fn digit_char(n: nat) -> char {
    if n == 0 {
        '0'
    } else if n == 1 {
        '1'
    } else if n == 2 {
        '2'
    } else if n == 3 {
        '3'
    } else if n == 4 {
        '4'
    } else if n == 5 {
        '5'
    } else if n == 6 {
        '6'
    } else if n == 7 {
        '7'
    } else if n == 8 {
        '8'
    } else {
        '9'
    }
}

/// The decimal digits of `n`, without leading zeros.
pub open spec fn dec_digits(n: nat) -> Seq<char>
    decreases n,
{
    if n < 10 {
        seq![digit_char(n)]
    } else {
        dec_digits(n / 10).push(digit_char(n % 10))
    }
}

/// `s` with zeros in front up to `w` characters.
pub open spec fn zero_pad(s: Seq<char>, w: nat) -> Seq<char> {
    if s.len() >= w {
        s
    } else {
        Seq::new((w - s.len()) as nat, |i: int| '0') + s
    }
}

/// A date as `chrono` writes it: the year in four digits at least, with
/// a sign outside `0..=9999`, then the month and the day in two digits,
/// separated by `-`.
pub open spec fn date_text(d: Date) -> Seq<char> {
    let y = d.year();
    let ys = if 0 <= y <= 9999 {
        zero_pad(dec_digits(y as nat), 4)
    } else if y < 0 {
        seq!['-'] + zero_pad(dec_digits((-y) as nat), 4)
    } else {
        seq!['+'] + zero_pad(dec_digits(y as nat), 4)
    };
    ys + seq!['-'] + zero_pad(dec_digits(d.month() as nat), 2) + seq!['-'] + zero_pad(
        dec_digits(d.day() as nat),
        2,
    )
}

fn digit(n: u64) -> (r: char)
    requires
        n < 10,
    ensures
        r == digit_char(n as nat),
{
    if n == 0 {
        '0'
    } else if n == 1 {
        '1'
    } else if n == 2 {
        '2'
    } else if n == 3 {
        '3'
    } else if n == 4 {
        '4'
    } else if n == 5 {
        '5'
    } else if n == 6 {
        '6'
    } else if n == 7 {
        '7'
    } else if n == 8 {
        '8'
    } else {
        '9'
    }
}

fn digits_of(n: u64) -> (r: Vec<char>)
    ensures
        r@ == dec_digits(n as nat),
    decreases n,
{
    if n < 10 {
        let mut v = Vec::new();
        v.push(digit(n));
        assert(v@ =~= seq![digit_char(n as nat)]);
        v
    } else {
        let mut v = digits_of(n / 10);
        v.push(digit(n % 10));
        v
    }
}

/// Appends the characters `s` to `out`.
fn push_all(out: &mut Vec<char>, s: &[char])
    ensures
        final(out)@ == old(out)@ + s@,
{
    let ghost base = out@;
    let mut i: usize = 0;
    while i < s.len()
        invariant
            i <= s@.len(),
            out@ == base + s@.take(i as int),
        decreases s@.len() - i,
    {
        out.push(s[i]);
        assert(out@ =~= base + s@.take(i + 1));
        i = i + 1;
    }
    assert(s@.take(i as int) =~= s@);
}

/// Appends `n` in decimal, with zeros in front up to `w` digits.
fn push_padded(out: &mut Vec<char>, n: u64, w: usize)
    ensures
        final(out)@ == old(out)@ + zero_pad(dec_digits(n as nat), w as nat),
{
    let ds = digits_of(n);
    if ds.len() < w {
        let ghost base = out@;
        let k = w - ds.len();
        let mut i: usize = 0;
        while i < k
            invariant
                i <= k,
                out@ == base + Seq::new(i as nat, |j: int| '0'),
            decreases k - i,
        {
            out.push('0');
            assert(out@ =~= base + Seq::new((i + 1) as nat, |j: int| '0'));
            i = i + 1;
        }
        push_all(out, ds.as_slice());
        assert(out@ =~= base + zero_pad(dec_digits(n as nat), w as nat));
    } else {
        push_all(out, ds.as_slice());
    }
}

/// Appends the date as `date_text` writes it.
fn push_date(out: &mut Vec<char>, d: Date)
    ensures
        final(out)@ == old(out)@ + date_text(d),
{
    let ghost base = out@;
    let y = d.get_year();
    let y64: i64 = y as i64;
    if 0 <= y64 && y64 <= 9999 {
        push_padded(out, y64 as u64, 4);
    } else if y64 < 0 {
        out.push('-');
        push_padded(out, (0 - y64) as u64, 4);
    } else {
        out.push('+');
        push_padded(out, y64 as u64, 4);
    }
    out.push('-');
    push_padded(out, d.get_month() as u64, 2);
    out.push('-');
    push_padded(out, d.get_day() as u64, 2);
    assert(out@ =~= base + date_text(d));
}

/// The date as `date_text` writes it.
pub fn date_string(d: Date) -> (r: String)
    ensures
        r@ == date_text(d),
{
    let mut out: Vec<char> = Vec::new();
    push_date(&mut out, d);
    assert(out@ =~= date_text(d));
    string_of(out.as_slice())
}

/// A quantity as the reports write it by default (see
/// `Quantity::to_text`).
pub open spec fn quantity_text(q: Quantity) -> Seq<char> {
    let n = manual_spec(decimal_format(q.q, 3));
    if q.s@.len() == 0 {
        n
    } else {
        q.s@ + seq![' '] + n
    }
}

/// The quantity can be written at the reports' default precision (see
/// `format_len`).
pub open spec fn quantity_printable(q: Quantity) -> bool {
    format_len(q.q, 3) <= 32
}

/// Every quantity that the line of posting `p` writes can be written.
pub open spec fn posting_printable(p: Posting) -> bool {
    &&& quantity_printable(p.quantity)
    &&& (p.uprice.s@ != p.quantity.s@ ==> quantity_printable(p.uprice))
    &&& (!quantity_eq(p.lot_uprice.price, p.uprice) ==> quantity_printable(p.lot_uprice.price))
}

/// Every posting of `x` can be written.
pub open spec fn xact_printable(x: Xact) -> bool {
    forall|k: int| 0 <= k < x.postings@.len() ==> posting_printable(#[trigger] x.postings@[k])
}

/// Both quantities are equal as `==` compares them: the same commodity
/// and the same number.
pub open spec fn quantity_eq(a: Quantity, b: Quantity) -> bool {
    a.s@ == b.s@ && a.q.value_eq(b.q)
}

/// `t` when `c`, nothing otherwise.
pub open spec fn when(c: bool, t: Seq<char>) -> Seq<char> {
    if c {
        t
    } else {
        Seq::empty()
    }
}

/// The first line of a transaction: its date (and effective date), its
/// state mark, its code in brackets, its payee and its comment.
pub open spec fn xact_head(x: Xact) -> Seq<char> {
    xact_mark(x) + when(x.code@.len() > 0, seq![' ', '('] + x.code@ + seq![')']) + when(
        x.payee@.len() > 0,
        seq![' '] + x.payee@,
    ) + when(x.comment@.len() > 0, seq![' ', ' ', ';', ' '] + x.comment@) + seq!['\n']
}

/// The spaces between the account name and the amount of a posting: up
/// to column `AMOUNT_COL` counting the indent and the name in bytes, and
/// two at least.
pub open spec fn pad_width(name: Seq<char>) -> nat {
    let head = 4 + encode_utf8(name).len();
    if head + 2 <= AMOUNT_COL {
        (AMOUNT_COL - head) as nat
    } else {
        2
    }
}

/// Bytes of the UTF-8 encoding of `c`.
pub open spec fn char_width(c: char) -> nat {
    let v = c as u32;
    if v <= 0x7F {
        1
    } else if v <= 0x7FF {
        2
    } else if v <= 0xFFFF {
        3
    } else {
        4
    }
}

/// Bytes of the UTF-8 encoding of `s`.
pub open spec fn utf8_len(s: Seq<char>) -> nat
    decreases s.len(),
{
    if s.len() == 0 {
        0
    } else {
        char_width(s[0]) + utf8_len(s.drop_first())
    }
}

proof fn lemma_utf8_len(s: Seq<char>)
    ensures
        encode_utf8(s).len() == utf8_len(s),
    decreases s.len(),
{
    if s.len() > 0 {
        lemma_utf8_len(s.drop_first());
        let v = s[0] as u32;
        assert(encode_utf8(s) == encode_scalar(v) + encode_utf8(s.drop_first()));
        vstd::utf8::char_is_scalar(s[0]);
        if v <= 0x7F {
            assert(encode_scalar(v).len() == 1);
        } else if v <= 0x7FF {
            assert(encode_scalar(v).len() == 2);
        } else if v <= 0xFFFF {
            assert(encode_scalar(v).len() == 3);
        } else {
            assert(encode_scalar(v).len() == 4);
        }
    }
}

/// `utf8_len(s)`, or `cap` where it is more.
fn utf8_len_capped(s: &[char], cap: usize) -> (r: usize)
    ensures
        r == if utf8_len(s@) < cap {
            utf8_len(s@)
        } else {
            cap as nat
        },
{
    let mut n: usize = 0;
    let mut i: usize = s.len();
    assert(s@.skip(i as int) =~= Seq::<char>::empty());
    while i > 0
        invariant
            i <= s@.len(),
            n == if utf8_len(s@.skip(i as int)) < cap {
                utf8_len(s@.skip(i as int))
            } else {
                cap as nat
            },
        decreases i,
    {
        i = i - 1;
        assert(s@.skip(i as int).drop_first() =~= s@.skip(i + 1));
        assert(s@.skip(i as int)[0] == s@[i as int]);
        let v = s[i] as u32;
        let w: usize = if v <= 0x7F {
            1
        } else if v <= 0x7FF {
            2
        } else if v <= 0xFFFF {
            3
        } else {
            4
        };
        n = if n < cap && w < cap - n {
            n + w
        } else {
            cap
        };
    }
    assert(s@.skip(0) =~= s@);
    n
}

/// The start of a posting line: indent, account name, padding and
/// amount.
pub open spec fn posting_head(p: Posting) -> Seq<char> {
    seq![' ', ' ', ' ', ' '] + p.acc_name@ + Seq::new(pad_width(p.acc_name@), |i: int| ' ')
        + quantity_text(p.quantity)
}

/// The prices of a posting line: the unit price where it is in another
/// commodity, the lot price where it differs from the unit price.
pub open spec fn posting_prices(p: Posting) -> Seq<char> {
    when(p.uprice.s@ != p.quantity.s@, seq![' ', '@', ' '] + quantity_text(p.uprice)) + when(
        !quantity_eq(p.lot_uprice.price, p.uprice),
        seq![' ', '{'] + quantity_text(p.lot_uprice.price) + seq!['}'],
    )
}

/// `p` with its lot price replaced by its unit price.
pub open spec fn with_lot_at_unit_price(p: Posting) -> Posting {
    Posting { lot_uprice: LotPrice { price: p.uprice, ptype: p.lot_uprice.ptype }, ..p }
}

/// A posting line shows the unit price, as ` @ PRICE` after the amount,
/// exactly when it is in another commodity than the amount, and the lot
/// price, as ` {PRICE}` just before the lot date, note and comment,
/// exactly when the lot price differs from the unit price in commodity or
/// in number; otherwise the line is that of the same posting whose lot
/// price is its unit price, so no lot price is lost in the printed
/// journal.
pub proof fn law_lot_price_printed(p: Posting)
    ensures
        ({
            let lot = p.lot_uprice.price;
            let differs = lot.s@ != p.uprice.s@ || !lot.q.value_eq(p.uprice.q);
            let base = with_lot_at_unit_price(p);
            &&& posting_line(base) == posting_head(p) + posting_prices(base) + posting_tail(p)
            &&& posting_prices(base) == if p.uprice.s@ != p.quantity.s@ {
                seq![' ', '@', ' '] + quantity_text(p.uprice)
            } else {
                Seq::empty()
            }
            &&& posting_line(p) == posting_head(p) + posting_prices(base) + (if differs {
                seq![' ', '{'] + quantity_text(lot) + seq!['}']
            } else {
                Seq::empty()
            }) + posting_tail(p)
        }),
{
    let base = with_lot_at_unit_price(p);
    assert(quantity_eq(base.lot_uprice.price, base.uprice));
    let lot = p.lot_uprice.price;
    let differs = lot.s@ != p.uprice.s@ || !lot.q.value_eq(p.uprice.q);
    assert(posting_prices(base) =~= when(p.uprice.s@ != p.quantity.s@, seq![' ', '@', ' '] + quantity_text(p.uprice)));
    if differs {
        assert(posting_prices(p) =~= posting_prices(base) + (seq![' ', '{'] + quantity_text(lot) + seq!['}']));
    } else {
        assert(posting_prices(p) =~= posting_prices(base));
    }
    assert(posting_line(p) =~= posting_head(p) + posting_prices(base) + (if differs {
        seq![' ', '{'] + quantity_text(lot) + seq!['}']
    } else {
        Seq::empty()
    }) + posting_tail(p));
}

/// The end of a posting line: the lot date, the lot note, the comment.
pub open spec fn posting_tail(p: Posting) -> Seq<char> {
    (match p.lot_date {
        Some(ld) => seq![' ', '['] + date_text(ld) + seq![']'],
        None => Seq::empty(),
    }) + when(p.lot_note@.len() > 0, seq![' ', '('] + p.lot_note@ + seq![')']) + when(
        p.comment@.len() > 0,
        seq![' ', ' ', ';', ' '] + p.comment@,
    ) + seq!['\n']
}

/// A posting line (see `posting_head`, `posting_prices`,
/// `posting_tail`).
pub open spec fn posting_line(p: Posting) -> Seq<char> {
    posting_head(p) + posting_prices(p) + posting_tail(p)
}

/// The lines of the postings `ps`, in order.
pub open spec fn posting_lines(ps: Seq<Posting>) -> Seq<char>
    decreases ps.len(),
{
    if ps.len() == 0 {
        Seq::empty()
    } else {
        posting_lines(ps.drop_last()) + posting_line(ps.last())
    }
}

/// A transaction in journal format: its first line, then a line per
/// posting.
pub open spec fn xact_text_spec(x: Xact) -> Seq<char> {
    xact_head(x) + posting_lines(x.postings@)
}

/// Appends the text of a quantity (see `quantity_text`).
fn push_quantity(out: &mut Vec<char>, q: &Quantity)
    requires
        quantity_printable(*q),
    ensures
        final(out)@ == old(out)@ + quantity_text(*q),
{
    let t = q.to_text(None);
    let cs = crate::text::chars_of(t.as_str());
    push_all(out, cs.as_slice());
}

/// Appends `s` when it is not empty, between `open` and `close`.
fn push_wrapped(out: &mut Vec<char>, open: &[char], s: &str, close: &[char])
    ensures
        final(out)@ == old(out)@ + when(s@.len() > 0, open@ + s@ + close@),
{
    let cs = crate::text::chars_of(s);
    if cs.len() > 0 {
        let ghost base = out@;
        push_all(out, open);
        push_all(out, cs.as_slice());
        push_all(out, close);
        assert(out@ =~= base + (open@ + s@ + close@));
    } else {
        assert(old(out)@ + when(s@.len() > 0, open@ + s@ + close@) =~= old(out)@);
    }
}

fn push_posting_head(out: &mut Vec<char>, p: &Posting)
    requires
        quantity_printable(p.quantity),
    ensures
        final(out)@ == old(out)@ + posting_head(*p),
{
    let ghost base = out@;
    let name = p.acc_name.as_str();
    let cs = crate::text::chars_of(name);
    let bytes = utf8_len_capped(cs.as_slice(), 1000);
    proof {
        lemma_utf8_len(p.acc_name@);
    }
    let head: usize = 4 + bytes;
    let pad: usize = if head + 2 <= AMOUNT_COL {
        AMOUNT_COL - head
    } else {
        2
    };
    assert(pad == pad_width(p.acc_name@));
    out.push(' ');
    out.push(' ');
    out.push(' ');
    out.push(' ');
    push_all(out, cs.as_slice());
    let ghost b1 = out@;
    let mut i: usize = 0;
    while i < pad
        invariant
            i <= pad,
            out@ == b1 + Seq::new(i as nat, |j: int| ' '),
        decreases pad - i,
    {
        out.push(' ');
        assert(out@ =~= b1 + Seq::new((i + 1) as nat, |j: int| ' '));
        i = i + 1;
    }
    push_quantity(out, &p.quantity);
    assert(out@ =~= base + posting_head(*p));
}

fn push_posting_prices(out: &mut Vec<char>, p: &Posting)
    requires
        posting_printable(*p),
    ensures
        final(out)@ == old(out)@ + posting_prices(*p),
{
    let ghost base = out@;
    if !p.uprice.s.same(&p.quantity.s) {
        out.push(' ');
        out.push('@');
        out.push(' ');
        push_quantity(out, &p.uprice);
    }
    let ghost s1 = when(p.uprice.s@ != p.quantity.s@, seq![' ', '@', ' '] + quantity_text(p.uprice));
    assert(out@ =~= base + s1);
    let same_price = p.lot_uprice.price.s.same(&p.uprice.s) && p.lot_uprice.price.q.eq_value(&p.uprice.q);
    if !same_price {
        out.push(' ');
        out.push('{');
        push_quantity(out, &p.lot_uprice.price);
        out.push('}');
    }
    assert(out@ =~= base + posting_prices(*p));
}

fn push_posting_tail(out: &mut Vec<char>, p: &Posting)
    ensures
        final(out)@ == old(out)@ + posting_tail(*p),
{
    let ghost base = out@;
    match p.lot_date {
        Some(ld) => {
            out.push(' ');
            out.push('[');
            push_date(out, ld);
            out.push(']');
        },
        None => {},
    }
    let ghost s1 = match p.lot_date {
        Some(ld) => seq![' ', '['] + date_text(ld) + seq![']'],
        None => Seq::empty(),
    };
    assert(out@ =~= base + s1);
    push_wrapped(out, &[' ', '('], p.lot_note.as_str(), &[')']);
    push_wrapped(out, &[' ', ' ', ';', ' '], p.comment.as_str(), &[]);
    out.push('\n');
    assert(out@ =~= base + posting_tail(*p));
}

/// Appends the line of posting `p` (see `posting_line`).
fn push_posting(out: &mut Vec<char>, p: &Posting)
    requires
        posting_printable(*p),
    ensures
        final(out)@ == old(out)@ + posting_line(*p),
{
    let ghost base = out@;
    push_posting_head(out, p);
    push_posting_prices(out, p);
    push_posting_tail(out, p);
    assert(out@ =~= base + posting_line(*p));
}

/// The dates and the state mark of the first line of a transaction.
pub open spec fn xact_mark(x: Xact) -> Seq<char> {
    date_text(x.date.txdate) + match x.date.efdate {
        Some(e) => seq!['='] + date_text(e),
        None => Seq::empty(),
    } + match x.state {
        State::Cleared => seq![' ', '*'],
        State::Pending => seq![' ', '!'],
        State::Unmarked => Seq::empty(),
    }
}

fn push_xact_mark(out: &mut Vec<char>, x: &Xact)
    ensures
        final(out)@ == old(out)@ + xact_mark(*x),
{
    let ghost base = out@;
    push_date(out, x.date.txdate);
    let ghost b1 = out@;
    match x.date.efdate {
        Some(e) => {
            out.push('=');
            push_date(out, e);
        },
        None => {},
    }
    let ghost b2 = out@;
    assert(b2 =~= b1 + match x.date.efdate {
        Some(e) => seq!['='] + date_text(e),
        None => Seq::empty(),
    });
    match x.state {
        State::Cleared => {
            out.push(' ');
            out.push('*');
        },
        State::Pending => {
            out.push(' ');
            out.push('!');
        },
        State::Unmarked => {},
    }
    assert(out@ =~= b2 + match x.state {
        State::Cleared => seq![' ', '*'],
        State::Pending => seq![' ', '!'],
        State::Unmarked => Seq::empty(),
    });
    assert(out@ =~= base + xact_mark(*x));
}

/// Appends the first line of transaction `x` (see `xact_head`).
fn push_xact_head(out: &mut Vec<char>, x: &Xact)
    ensures
        final(out)@ == old(out)@ + xact_head(*x),
{
    let ghost base = out@;
    push_xact_mark(out, x);
    let ghost b1 = out@;
    push_wrapped(out, &[' ', '('], x.code.as_str(), &[')']);
    push_wrapped(out, &[' '], x.payee.as_str(), &[]);
    push_wrapped(out, &[' ', ' ', ';', ' '], x.comment.as_str(), &[]);
    out.push('\n');
    assert(out@ =~= base + xact_head(*x));
}

/// The transaction in journal format (see `xact_text_spec`).
pub fn xact_text(x: &Xact) -> (r: String)
    requires
        xact_printable(*x),
    ensures
        r@ == xact_text_spec(*x),
{
    let mut out: Vec<char> = Vec::new();
    push_xact_head(&mut out, x);
    assert(out@ =~= xact_head(*x));
    let ghost head = out@;
    let ghost ps = x.postings@;
    let mut i: usize = 0;
    assert(ps.take(0) =~= Seq::<Posting>::empty());
    while i < x.postings.len()
        invariant
            i <= ps.len(),
            ps == x.postings@,
            xact_printable(*x),
            out@ == head + posting_lines(ps.take(i as int)),
        decreases ps.len() - i,
    {
        assert(ps.take(i + 1).drop_last() =~= ps.take(i as int));
        assert(ps.take(i + 1).last() == ps[i as int]);
        push_posting(&mut out, &x.postings[i]);
        assert(out@ =~= head + posting_lines(ps.take(i + 1)));
        i = i + 1;
    }
    assert(ps.take(i as int) =~= ps);
    string_of(out.as_slice())
}

/// Whether every quantity that the line of posting `p` writes can be
/// written (see `posting_printable`).
pub fn posting_printable_check(p: &Posting) -> (r: bool)
    ensures
        r == posting_printable(*p),
{
    if !p.quantity.q.fits_format(3) {
        return false;
    }
    if !p.uprice.s.same(&p.quantity.s) && !p.uprice.q.fits_format(3) {
        return false;
    }
    let same_price = p.lot_uprice.price.s.same(&p.uprice.s) && p.lot_uprice.price.q.eq_value(&p.uprice.q);
    if !same_price && !p.lot_uprice.price.q.fits_format(3) {
        return false;
    }
    true
}

/// The transaction in journal format (see `xact_text_spec`), or `None`
/// where one of its quantities cannot be written (see `xact_printable`).
pub fn xact_text_checked(x: &Xact) -> (r: Option<String>)
    ensures
        r is Some <==> xact_printable(*x),
        r matches Some(t) ==> t@ == xact_text_spec(*x),
{
    let mut i: usize = 0;
    while i < x.postings.len()
        invariant
            i <= x.postings@.len(),
            forall|k: int| 0 <= k < i ==> posting_printable(#[trigger] x.postings@[k]),
        decreases x.postings@.len() - i,
    {
        if !posting_printable_check(&x.postings[i]) {
            return None;
        }
        i = i + 1;
    }
    Some(xact_text(x))
}

} // verus!
