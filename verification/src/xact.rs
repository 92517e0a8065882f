//! Transactions and postings: as the parser reads them, and as the
//! journal keeps them once amounts and prices are settled.
//!
//! A parsed posting may leave out its amount (at most one per
//! transaction), its unit price (`@ $10`) and its lot price (`{$10}`).
//! Turning a parsed transaction into a journal transaction fills them
//! in:
//!
//! * a posting without unit price and lot price is priced at one unit
//!   of its own commodity; when only one of the two is given, the other
//!   takes its value;
//! * the book values (lot price times quantity) of the postings are
//!   summed; a posting without amount receives the opposite of that sum,
//!   one posting per commodity; without such a posting the sum must be
//!   zero, or made of two commodities of opposite signs (a conversion);
//! * in a conversion, postings priced in their own commodity that hold
//!   the secondary commodity are priced in the primary one.

use vstd::prelude::*;

use crate::amount::{
    add_one, find_sym, keys_distinct, lemma_add_one_values, lemma_find_sym, lemma_sum_ok_prefix, sum_all, sum_ok,
    value_or_zero, Amount, Entry,
};
use crate::date::Date;
use crate::decimal::{decimal_add, decimal_div, decimal_mul, lemma_add_opposite, lemma_mul_one, lemma_neg_nonzero, Dec};
use crate::journal::AccName;
use crate::ledger::Query;
use crate::misc::BetweenDate;
use crate::pricedb::MarketPrice;
use crate::parser::{join_lines, lines_tags, lines_vtags, parse_comment, vtag_views, ParseError, State};
use crate::prices::{PriceBasis, PriceType};
use crate::quantity::Quantity;
use crate::symbol::{Symbol, Tag};

verus! {

/// The largest number of postings without amount in a transaction.
pub const MAX_ELIDING_AMOUNT: usize = 1usize;

/// The price of one unit of a lot, and whether it is fixed.
#[derive(Debug, Clone, PartialEq)]
pub struct LotPrice {
    pub price: Quantity,
    pub ptype: PriceType,
}

impl View for LotPrice {
    type V = (Entry, PriceType);

    open spec fn view(&self) -> (Entry, PriceType) {
        (self.price@, self.ptype)
    }
}

impl LotPrice {
    /// A second lot price equal to this one.
    pub fn duplicate(&self) -> (r: LotPrice)
        ensures
            r == *self,
    {
        LotPrice { price: self.price.duplicate(), ptype: self.ptype }
    }
}

/// The date of a transaction and its optional effective date.
#[derive(Debug, Clone, Copy, PartialEq, Eq)]
pub struct XactDate {
    pub txdate: Date,
    pub efdate: Option<Date>,
}

/// A posting of the journal: an amount moved to or from an account,
/// with its prices settled.
#[derive(Debug)]
pub struct Posting {
    /// posting date, the date of its transaction
    pub date: Date,
    /// posting state
    pub state: State,
    /// name of the account
    pub acc_name: AccName,
    /// debits and credits are positive and negative quantities
    pub quantity: Quantity,
    /// the unit market price of the quantity
    pub uprice: Quantity,
    /// the unit lot price of the quantity
    pub lot_uprice: LotPrice,
    /// lot date
    pub lot_date: Option<Date>,
    /// lot note
    pub lot_note: String,
    /// posting comment
    pub comment: String,
    /// posting tags (`:tag1:tag2:`)
    pub tags: Vec<Tag>,
    /// posting value tags (`tag: value`)
    pub vtags: Vec<(Tag, String)>,
}

impl Posting {
    /// The value of the posting at its lot price: the lot unit price
    /// times the quantity, in the commodity of the lot price.
    pub fn book_value(&self) -> (r: Quantity)
        requires
            decimal_mul(self.lot_uprice.price.q, self.quantity.q) is Some,
        ensures
            r == (Quantity { q: decimal_mul(self.lot_uprice.price.q, self.quantity.q).unwrap(), s: self.lot_uprice.price.s }),
    {
        self.lot_uprice.price.duplicate().mul_quantity(&self.quantity)
    }
}

/// A transaction of the journal.
#[derive(Debug)]
pub struct Xact {
    pub state: State,
    pub code: String,
    pub date: XactDate,
    pub payee: String,
    pub comment: String,
    pub postings: Vec<Posting>,
    /// transaction tags (`:tag1:tag2:`)
    pub tags: Vec<Tag>,
    /// transaction value tags (`tag: value`)
    pub vtags: Vec<(Tag, String)>,
}

/// A posting as the parser reads it, before its amount and prices are
/// settled.
#[derive(Debug)]
pub struct ParsedPosting {
    pub state: State,
    /// name of the account
    pub account: String,
    /// the amount; none for the posting that balances the transaction
    pub quantity: Option<Quantity>,
    /// unit price (`@ $price`, or `@@ $total` divided by the quantity)
    pub uprice: Option<Quantity>,
    /// unit lot price (`{$price}`, `{=$price}`, `{{$total}}`)
    pub lot_uprice: Option<LotPrice>,
    pub lot_date: Option<Date>,
    pub lot_note: String,
    pub comment: String,
    pub tags: Vec<Tag>,
    pub vtags: Vec<(Tag, String)>,
}

/// A transaction as the parser reads it.
#[derive(Debug)]
pub struct ParsedXact {
    pub state: State,
    pub code: String,
    pub date: XactDate,
    pub payee: String,
    pub comment: String,
    pub tags: Vec<Tag>,
    pub vtags: Vec<(Tag, String)>,
    pub postings: Vec<ParsedPosting>,
}

/// The settled numbers of a posting, by value: its quantity, its unit
/// price and its lot price.
pub type Prices = (Entry, Entry, (Entry, PriceType));

/// One unit of commodity `s`.
pub open spec fn unit_of(s: Seq<char>) -> Entry {
    (s, Dec::one_spec())
}

/// The unit price and lot price of a posting of quantity `q`: those
/// given, one standing for the other when only one is given, and one
/// unit of the posting's own commodity when none is.
pub open spec fn resolve(p: ParsedPosting, q: Entry) -> (Entry, (Entry, PriceType)) {
    match (p.uprice, p.lot_uprice) {
        (Some(u), Some(lp)) => (u@, lp@),
        (None, Some(lp)) => (lp.price@, lp@),
        (Some(u), None) => (u@, (u@, PriceType::Floating)),
        (None, None) => (unit_of(q.0), (unit_of(q.0), PriceType::Floating)),
    }
}

/// The settled numbers of a posting of quantity `q`.
pub open spec fn prices_of(p: ParsedPosting, q: Entry) -> Prices {
    (q, resolve(p, q).0, resolve(p, q).1)
}

/// `out` is the journal posting made from `src` on `date`, with the
/// settled numbers `pr`.
pub open spec fn posting_matches(out: Posting, src: ParsedPosting, pr: Prices, date: Date) -> bool {
    &&& out.date == date
    &&& out.state == src.state
    &&& out.acc_name@ == src.account@
    &&& out.quantity@ == pr.0
    &&& out.uprice@ == pr.1
    &&& out.lot_uprice@ == pr.2
    &&& out.lot_date == src.lot_date
    &&& out.lot_note == src.lot_note
    &&& out.comment == src.comment
    &&& out.tags@ == src.tags@
    &&& out.vtags@ == src.vtags@
}

/// Two parsed postings agree on everything but their amount.
pub open spec fn same_but_amount(a: ParsedPosting, b: ParsedPosting) -> bool {
    &&& a.state == b.state
    &&& a.account == b.account
    &&& a.uprice == b.uprice
    &&& a.lot_uprice == b.lot_uprice
    &&& a.lot_date == b.lot_date
    &&& a.lot_note == b.lot_note
    &&& a.comment == b.comment
    &&& a.tags@ == b.tags@
    &&& a.vtags@ == b.vtags@
}

fn dup_tags(ts: &Vec<Tag>) -> (r: Vec<Tag>)
    ensures
        r@ == ts@,
{
    let mut r: Vec<Tag> = Vec::new();
    let mut i: usize = 0;
    while i < ts.len()
        invariant
            i <= ts@.len(),
            r@ == ts@.take(i as int),
        decreases ts@.len() - i,
    {
        r.push(ts[i].duplicate());
        assert(r@ =~= ts@.take(i + 1));
        i = i + 1;
    }
    assert(ts@.take(ts@.len() as int) =~= ts@);
    r
}

fn dup_vtags(ts: &Vec<(Tag, String)>) -> (r: Vec<(Tag, String)>)
    ensures
        r@ == ts@,
{
    let mut r: Vec<(Tag, String)> = Vec::new();
    let mut i: usize = 0;
    while i < ts.len()
        invariant
            i <= ts@.len(),
            r@ == ts@.take(i as int),
        decreases ts@.len() - i,
    {
        r.push((ts[i].0.duplicate(), ts[i].1.clone()));
        assert(r@ =~= ts@.take(i + 1));
        i = i + 1;
    }
    assert(ts@.take(ts@.len() as int) =~= ts@);
    r
}

impl ParsedPosting {
    /// A copy of this posting with the amount `q`.
    pub fn with_quantity(&self, q: Quantity) -> (r: ParsedPosting)
        ensures
            same_but_amount(r, *self),
            r.quantity == Some(q),
    {
        ParsedPosting {
            state: self.state,
            account: self.account.clone(),
            quantity: Some(q),
            uprice: match &self.uprice {
                Some(u) => Some(u.duplicate()),
                None => None,
            },
            lot_uprice: match &self.lot_uprice {
                Some(lp) => Some(lp.duplicate()),
                None => None,
            },
            lot_date: self.lot_date,
            lot_note: self.lot_note.clone(),
            comment: self.comment.clone(),
            tags: dup_tags(&self.tags),
            vtags: dup_vtags(&self.vtags),
        }
    }

    /// The journal posting on `date`, its unit price and lot price
    /// settled by `resolve`.
    pub fn into_posting(self, date: Date) -> (r: Posting)
        requires
            self.quantity is Some,
        ensures
            posting_matches(r, self, prices_of(self, self.quantity.unwrap()@), date),
    {
        let quantity = match self.quantity {
            Some(q) => q,
            None => Quantity { q: Dec::zero(), s: Symbol::new("") },
        };
        let (uprice, lot_uprice) = match (self.uprice, self.lot_uprice) {
            (Some(p), Some(lp)) => (p, lp),
            (None, Some(lp)) => (lp.price.duplicate(), lp),
            (Some(p), None) => {
                let lp = LotPrice { price: p.duplicate(), ptype: PriceType::Floating };
                (p, lp)
            },
            (None, None) => (
                quantity.to_unit(),
                LotPrice { price: quantity.to_unit(), ptype: PriceType::Floating },
            ),
        };
        Posting {
            date,
            state: self.state,
            acc_name: AccName::from_string(self.account),
            quantity,
            uprice,
            lot_uprice,
            lot_date: self.lot_date,
            lot_note: self.lot_note,
            comment: self.comment,
            tags: self.tags,
            vtags: self.vtags,
        }
    }
}

/// The settled numbers of a journal posting.
pub open spec fn posting_prices(p: Posting) -> Prices {
    (p.quantity@, p.uprice@, p.lot_uprice@)
}

/// The settled numbers of journal postings.
pub open spec fn prices_seq(ps: Seq<Posting>) -> Seq<Prices> {
    ps.map_values(|p: Posting| posting_prices(p))
}

/// Number of postings without amount.
pub open spec fn count_eliding(ps: Seq<ParsedPosting>) -> nat
    decreases ps.len(),
{
    if ps.len() == 0 {
        0
    } else {
        count_eliding(ps.drop_last()) + if ps.last().quantity is None {
            1nat
        } else {
            0nat
        }
    }
}

/// Position of the first posting without amount, or `-1`.
pub open spec fn first_eliding(ps: Seq<ParsedPosting>) -> int
    decreases ps.len(),
{
    if ps.len() == 0 {
        -1
    } else {
        let f = first_eliding(ps.drop_last());
        if f >= 0 {
            f
        } else if ps.last().quantity is None {
            ps.len() - 1
        } else {
            -1
        }
    }
}

/// The postings but the first one without amount.
pub open spec fn with_amounts(ps: Seq<ParsedPosting>) -> Seq<ParsedPosting> {
    let i = first_eliding(ps);
    if i >= 0 {
        ps.remove(i)
    } else {
        ps
    }
}

/// The settled numbers of postings that have an amount.
pub open spec fn base_prices(ps: Seq<ParsedPosting>) -> Seq<Prices> {
    ps.map_values(|p: ParsedPosting| prices_of(p, p.quantity.unwrap()@))
}

/// The book value of a posting, the number of its lot price times its
/// quantity (`None` on overflow).
pub open spec fn book_opt(pr: Prices) -> Option<Dec> {
    decimal_mul(pr.2.0.1, pr.0.1)
}

/// No book value overflows.
pub open spec fn books_ok(prs: Seq<Prices>) -> bool {
    forall|i: int| 0 <= i < prs.len() ==> #[trigger] book_opt(prs[i]) is Some
}

/// The book values, in the commodities of the lot prices.
pub open spec fn books(prs: Seq<Prices>) -> Seq<Entry> {
    prs.map_values(|pr: Prices| (pr.2.0.0, book_opt(pr).unwrap()))
}

/// The settled numbers of the postings made from `el` to balance `bal`:
/// one per commodity, of the opposite quantity.
pub open spec fn eliding_prices(el: ParsedPosting, bal: Seq<Entry>) -> Seq<Prices> {
    bal.map_values(|e: Entry| prices_of(el, (e.0, e.1.neg_spec())))
}

/// The product `1 * a * b`, as `rust_decimal` computes it.
pub open spec fn product_of_two(a: Dec, b: Dec) -> Option<Dec> {
    match decimal_mul(Dec::one_spec(), a) {
        Some(x) => decimal_mul(x, b),
        None => None,
    }
}

/// Looks from posting `k` on for one priced in another commodity that
/// is `a` or `b`: that one is primary.
pub open spec fn guess_scan(prs: Seq<Prices>, a: Entry, b: Entry, k: int) -> Option<(Entry, Entry)>
    decreases prs.len() - k,
{
    if k < 0 || k >= prs.len() {
        None
    } else {
        let p = prs[k];
        if p.1.0 != p.0.0 && p.1.0 == a.0 {
            Some((a, b))
        } else if p.1.0 != p.0.0 && p.1.0 == b.0 {
            Some((b, a))
        } else {
            guess_scan(prs, a, b, k + 1)
        }
    }
}

/// Of the two commodities `a` and `b` of a conversion, the primary one
/// and the secondary one: the commodity of the first posting is
/// secondary; otherwise the first commodity that prices a posting held
/// in another one is primary. `None` when no posting tells.
pub open spec fn guess_primary_spec(prs: Seq<Prices>, a: Entry, b: Entry) -> Option<(Entry, Entry)> {
    if prs.len() == 0 {
        None
    } else if a.0 == prs[0].0.0 {
        Some((b, a))
    } else if b.0 == prs[0].0.0 {
        Some((a, b))
    } else {
        guess_scan(prs, a, b, 0)
    }
}

/// A posting holding the secondary commodity, priced in itself.
pub open spec fn needs_primary(pr: Prices, sec: Entry) -> bool {
    pr.0.0 == pr.1.0 && pr.0.0 == sec.0
}

/// The price of one unit of the secondary commodity in the primary one:
/// `|pri / sec|`.
pub open spec fn psec_opt(pri: Entry, sec: Entry) -> Option<Entry> {
    match decimal_div(pri.1, sec.1) {
        Some(d) => Some((pri.0, d.abs_spec())),
        None => None,
    }
}

/// The division is defined wherever it is needed.
pub open spec fn fill_ok(prs: Seq<Prices>, pri: Entry, sec: Entry) -> bool {
    forall|i: int| 0 <= i < prs.len() && #[trigger] needs_primary(prs[i], sec) ==> psec_opt(pri, sec) is Some
}

/// The postings holding the secondary commodity priced in itself get the
/// unit price and lot price `|pri / sec|`.
pub open spec fn fill(prs: Seq<Prices>, pri: Entry, sec: Entry) -> Seq<Prices> {
    prs.map_values(
        |pr: Prices|
            if needs_primary(pr, sec) {
                (pr.0, psec_opt(pri, sec).unwrap(), (psec_opt(pri, sec).unwrap(), pr.2.1))
            } else {
                pr
            },
    )
}

/// What settling a parsed transaction gives: an error, or, for each
/// resulting posting, the parsed posting it comes from and its settled
/// numbers; `None` where a number overflows or no commodity can be told
/// primary.
pub open spec fn settle(x: ParsedXact) -> Option<Result<(Seq<ParsedPosting>, Seq<Prices>), ParseError>> {
    let ps = x.postings@;
    let n = count_eliding(ps);
    if n > MAX_ELIDING_AMOUNT {
        Some(Err(ParseError::ElidingAmount(n as usize)))
    } else {
        let rest = with_amounts(ps);
        let base = base_prices(rest);
        if !books_ok(base) || !sum_ok(Seq::empty(), books(base)) {
            None
        } else {
            let bal = sum_all(Seq::empty(), books(base));
            let el = first_eliding(ps);
            let srcs = if el >= 0 {
                rest + Seq::new(bal.len(), |i: int| ps[el])
            } else {
                rest
            };
            let rows = if el >= 0 {
                base + eliding_prices(ps[el], bal)
            } else {
                base
            };
            if el < 0 && bal.len() != 0 && bal.len() != 2 {
                Some(Err(ParseError::XactNoBalanced))
            } else if el < 0 && bal.len() == 2 && product_of_two(bal[0].1, bal[1].1) is None {
                None
            } else if el < 0 && bal.len() == 2 && product_of_two(bal[0].1, bal[1].1).unwrap().mant()
                > 0 {
                Some(Err(ParseError::XactNoBalanced))
            } else if bal.len() == 2 {
                match guess_primary_spec(rows, bal[0], bal[1]) {
                    None => None,
                    Some(g) => if fill_ok(rows, g.0, g.1) {
                        Some(Ok((srcs, fill(rows, g.0, g.1))))
                    } else {
                        None
                    },
                }
            } else {
                Some(Ok((srcs, rows)))
            }
        }
    }
}

/// Summing the entries of `a` and then those of `b` is summing those of
/// `a + b`.
proof fn lemma_sum_all_concat(es: Seq<Entry>, a: Seq<Entry>, b: Seq<Entry>)
    ensures
        sum_all(es, a + b) == sum_all(sum_all(es, a), b),
        sum_ok(es, a + b) == (sum_ok(es, a) && sum_ok(sum_all(es, a), b)),
    decreases b.len(),
{
    if b.len() == 0 {
        assert(a + b =~= a);
    } else {
        assert((a + b).drop_last() =~= a + b.drop_last());
        assert((a + b).last() == b.last());
        lemma_sum_all_concat(es, a, b.drop_last());
    }
}

/// A sum started from distinct commodities without zeros keeps them
/// distinct and without zeros.
proof fn lemma_sum_all_distinct(es: Seq<Entry>, rs: Seq<Entry>)
    requires
        keys_distinct(es),
        forall|i: int| 0 <= i < es.len() ==> (#[trigger] es[i]).1.mant() != 0,
    ensures
        keys_distinct(sum_all(es, rs)),
        forall|i: int| 0 <= i < sum_all(es, rs).len() ==> (#[trigger] sum_all(es, rs)[i]).1.mant() != 0,
    decreases rs.len(),
{
    if rs.len() > 0 {
        lemma_sum_all_distinct(es, rs.drop_last());
        lemma_add_one_values(sum_all(es, rs.drop_last()), rs.last().0, rs.last().1, false, rs.last().0);
    }
}

/// The opposite of every entry.
pub open spec fn opposites(bal: Seq<Entry>) -> Seq<Entry> {
    bal.map_values(|e: Entry| (e.0, e.1.neg_spec()))
}

/// Adding to `bal` the opposites of its first `k` entries, in order,
/// zeroes their commodities and leaves the others as they were.
proof fn lemma_cancel(bal: Seq<Entry>, k: int)
    requires
        keys_distinct(bal),
        forall|i: int| 0 <= i < bal.len() ==> (#[trigger] bal[i]).1.mant() != 0,
        0 <= k <= bal.len(),
    ensures
        sum_ok(bal, opposites(bal).take(k)),
        keys_distinct(sum_all(bal, opposites(bal).take(k))),
        forall|i: int|
            0 <= i < sum_all(bal, opposites(bal).take(k)).len() ==> (#[trigger] sum_all(
                bal,
                opposites(bal).take(k),
            )[i]).1.mant() != 0,
        forall|t: Seq<char>|
            #![trigger value_or_zero(sum_all(bal, opposites(bal).take(k)), t)]
            value_or_zero(sum_all(bal, opposites(bal).take(k)), t) == if exists|j: int|
                0 <= j < k && (#[trigger] bal[j]).0 == t {
                Dec::zero_spec()
            } else {
                value_or_zero(bal, t)
            },
    decreases k,
{
    let ns = opposites(bal);
    if k == 0 {
        assert(ns.take(0) =~= Seq::<Entry>::empty());
    } else {
        lemma_cancel(bal, k - 1);
        let pre = ns.take(k - 1);
        assert(ns.take(k).drop_last() =~= pre);
        let cur = sum_all(bal, pre);
        let s = bal[k - 1].0;
        let v = bal[k - 1].1;
        assert(ns.take(k).last() == (s, v.neg_spec()));
        lemma_find_sym(bal, s);
        assert(!exists|j: int| 0 <= j < k - 1 && (#[trigger] bal[j]).0 == s) by {
            assert forall|j: int| 0 <= j < k - 1 implies (#[trigger] bal[j]).0 != s by {
                assert(bal[j].0 != bal[k - 1].0);
            }
        }
        assert(value_or_zero(cur, s) == v);
        lemma_add_opposite(v);
        let z = decimal_add(v, v.neg_spec()).unwrap();
        assert forall|t: Seq<char>| #![trigger value_or_zero(add_one(cur, s, v.neg_spec(), false), t)]
            value_or_zero(add_one(cur, s, v.neg_spec(), false), t) == if exists|j: int|
                0 <= j < k && (#[trigger] bal[j]).0 == t {
                Dec::zero_spec()
            } else {
                value_or_zero(bal, t)
            } by {
            lemma_add_one_values(cur, s, v.neg_spec(), false, t);
            lemma_find_sym(bal, t);
            Dec::lemma_consts();
            assert(value_or_zero(cur, t) == if exists|j: int| 0 <= j < k - 1 && (#[trigger] bal[j]).0 == t {
                Dec::zero_spec()
            } else {
                value_or_zero(bal, t)
            });
            if t == s {
                assert(bal[k - 1].0 == t);
            } else {
                if exists|j: int| 0 <= j < k && (#[trigger] bal[j]).0 == t {
                    let j = choose|j: int| 0 <= j < k && (#[trigger] bal[j]).0 == t;
                    assert(j < k - 1);
                }
            }
        }
        lemma_add_one_values(cur, s, v.neg_spec(), false, s);
    }
}

/// Entries with distinct commodities, none zero, whose every commodity
/// is worth zero, are none at all.
proof fn lemma_all_zero_empty(es: Seq<Entry>)
    requires
        keys_distinct(es),
        forall|i: int| 0 <= i < es.len() ==> (#[trigger] es[i]).1.mant() != 0,
        forall|t: Seq<char>| #[trigger] value_or_zero(es, t).mant() == 0,
    ensures
        es.len() == 0,
{
    if es.len() > 0 {
        let t = es[0].0;
        lemma_find_sym(es, t);
        assert(value_or_zero(es, t) == es[0].1);
    }
}

/// A settled transaction balances, unless the postings with an amount
/// leave exactly two commodities to balance (a conversion) or the posting
/// whose amount is left out has a unit price or a lot price of its own:
/// the book values of all its settled postings add up to nothing in
/// every commodity.
pub proof fn law_settled_balances(x: ParsedXact)
    requires
        settle(x) matches Some(Ok(_)),
        first_eliding(x.postings@) >= 0 ==> x.postings@[first_eliding(x.postings@)].uprice is None,
        first_eliding(x.postings@) >= 0 ==> x.postings@[first_eliding(x.postings@)].lot_uprice is None,
        sum_all(Seq::empty(), books(base_prices(with_amounts(x.postings@)))).len() != 2,
    ensures
        books_ok(settle(x)->Some_0->Ok_0.1),
        sum_ok(Seq::empty(), books(settle(x)->Some_0->Ok_0.1)),
        sum_all(Seq::empty(), books(settle(x)->Some_0->Ok_0.1)) == Seq::<Entry>::empty(),
{
    let ps = x.postings@;
    let el = first_eliding(ps);
    let base = base_prices(with_amounts(ps));
    let bal = sum_all(Seq::empty(), books(base));
    let elid = eliding_prices(ps[el], bal);
    let rows = settle(x)->Some_0->Ok_0.1;
    if el < 0 {
        assert(rows == base);
        assert(bal.len() == 0);
    } else {
        assert(rows == base + elid);
        lemma_sum_all_distinct(Seq::empty(), books(base));
        assert forall|i: int| 0 <= i < elid.len() implies #[trigger] book_opt(elid[i]) == Some(bal[i].1.neg_spec()) by {
            lemma_neg_nonzero(bal[i].1);
            lemma_mul_one(bal[i].1.neg_spec());
        }
        assert forall|i: int| 0 <= i < rows.len() implies #[trigger] book_opt(rows[i]) is Some by {
            if i >= base.len() {
                assert(rows[i] == elid[i - base.len()]);
            } else {
                assert(rows[i] == base[i]);
            }
        }
        assert(books(elid) =~= opposites(bal));
        assert(books(rows) =~= books(base) + opposites(bal));
        lemma_sum_all_concat(Seq::empty(), books(base), opposites(bal));
        lemma_cancel(bal, bal.len() as int);
        assert(opposites(bal).take(bal.len() as int) =~= opposites(bal));
        let f = sum_all(bal, opposites(bal));
        assert forall|t: Seq<char>| #[trigger] value_or_zero(f, t).mant() == 0 by {
            lemma_find_sym(bal, t);
            Dec::lemma_consts();
            if find_sym(bal, t) >= 0 {
                assert(bal[find_sym(bal, t)].0 == t);
            }
        }
        lemma_all_zero_empty(f);
    }
}

/// `x` is the journal transaction made from `raw`, whose postings come
/// from `srcs` with the settled numbers `rows`.
pub open spec fn xact_matches(x: Xact, raw: ParsedXact, srcs: Seq<ParsedPosting>, rows: Seq<Prices>) -> bool {
    &&& x.state == raw.state
    &&& x.code == raw.code
    &&& x.date == raw.date
    &&& x.payee == raw.payee
    &&& x.comment == raw.comment
    &&& x.tags == raw.tags
    &&& x.vtags == raw.vtags
    &&& x.postings@.len() == rows.len()
    &&& srcs.len() == rows.len()
    &&& forall|i: int|
        0 <= i < rows.len() ==> #[trigger] posting_matches(
            x.postings@[i],
            srcs[i],
            rows[i],
            raw.date.txdate,
        )
}

proof fn lemma_count_zero(ps: Seq<ParsedPosting>)
    requires
        count_eliding(ps) == 0,
    ensures
        first_eliding(ps) == -1,
        forall|j: int| 0 <= j < ps.len() ==> (#[trigger] ps[j]).quantity is Some,
    decreases ps.len(),
{
    if ps.len() > 0 {
        let init = ps.drop_last();
        lemma_count_zero(init);
        assert forall|j: int| 0 <= j < ps.len() implies (#[trigger] ps[j]).quantity is Some by {
            if j < init.len() {
                assert(ps[j] == init[j]);
            }
        }
    }
}

/// With at most one posting without amount, the others all have one.
proof fn lemma_with_amounts(ps: Seq<ParsedPosting>)
    requires
        count_eliding(ps) <= 1,
    ensures
        forall|j: int| 0 <= j < with_amounts(ps).len() ==> (#[trigger] with_amounts(ps)[j]).quantity is Some,
        first_eliding(ps) >= 0 ==> 0 <= first_eliding(ps) < ps.len() && ps[first_eliding(ps)].quantity is None,
        first_eliding(ps) < 0 ==> first_eliding(ps) == -1,
    decreases ps.len(),
{
    if ps.len() > 0 {
        let init = ps.drop_last();
        let last = ps.last();
        if last.quantity is Some {
            lemma_with_amounts(init);
            let f = first_eliding(init);
            let w = with_amounts(ps);
            if f >= 0 {
                assert(w =~= init.remove(f).push(last));
                assert forall|j: int| 0 <= j < w.len() implies (#[trigger] w[j]).quantity is Some by {
                    if j < w.len() - 1 {
                        assert(w[j] == with_amounts(init)[j]);
                    }
                }
                assert(ps[f] == init[f]);
            } else {
                assert(w == ps);
                assert forall|j: int| 0 <= j < w.len() implies (#[trigger] w[j]).quantity is Some by {
                    if j < w.len() - 1 {
                        assert(w[j] == with_amounts(init)[j]);
                    }
                }
            }
        } else {
            lemma_count_zero(init);
            let w = with_amounts(ps);
            assert(w =~= init);
        }
    }
}

/// A first posting without amount found in a prefix is the first one.
proof fn lemma_first_eliding_prefix(ps: Seq<ParsedPosting>, m: int)
    requires
        0 <= m <= ps.len(),
        first_eliding(ps.take(m)) >= 0,
    ensures
        first_eliding(ps) == first_eliding(ps.take(m)),
    decreases ps.len(),
{
    if m == ps.len() {
        assert(ps.take(m) =~= ps);
    } else {
        let init = ps.drop_last();
        assert(init.take(m) =~= ps.take(m));
        lemma_first_eliding_prefix(init, m);
    }
}

impl ParsedXact {
    /// How many postings have no amount.
    pub fn neliding_amount(&self) -> (r: usize)
        ensures
            r == count_eliding(self.postings@),
    {
        let ghost ps = self.postings@;
        let mut n: usize = 0;
        let mut i: usize = 0;
        while i < self.postings.len()
            invariant
                i <= ps.len(),
                ps == self.postings@,
                n == count_eliding(ps.take(i as int)),
                n <= i,
            decreases ps.len() - i,
        {
            assert(ps.take(i + 1).drop_last() =~= ps.take(i as int));
            assert(ps.take(i + 1).last() == ps[i as int]);
            if self.postings[i].quantity.is_none() {
                n = n + 1;
            }
            i = i + 1;
        }
        assert(ps.take(ps.len() as int) =~= ps);
        n
    }

    /// The position of the first posting without amount.
    fn find_eliding(&self) -> (r: Option<usize>)
        ensures
            match r {
                Some(i) => i == first_eliding(self.postings@) && i < self.postings@.len(),
                None => first_eliding(self.postings@) < 0,
            },
    {
        let ghost ps = self.postings@;
        let mut i: usize = 0;
        while i < self.postings.len()
            invariant
                i <= ps.len(),
                ps == self.postings@,
                first_eliding(ps.take(i as int)) == -1,
            decreases ps.len() - i,
        {
            assert(ps.take(i + 1).drop_last() =~= ps.take(i as int));
            assert(ps.take(i + 1).last() == ps[i as int]);
            if self.postings[i].quantity.is_none() {
                proof {
                    lemma_first_eliding_prefix(ps, i + 1);
                }
                return Some(i);
            }
            i = i + 1;
        }
        assert(ps.take(ps.len() as int) =~= ps);
        None
    }

    /// Removes and returns the first posting without amount.
    pub fn maybe_remove_eliding(&mut self) -> (r: Option<ParsedPosting>)
        ensures
            first_eliding(old(self).postings@) >= 0 ==> r == Some(
                old(self).postings@[first_eliding(old(self).postings@)],
            ),
            first_eliding(old(self).postings@) < 0 ==> r is None,
            final(self).postings@ == with_amounts(old(self).postings@),
            final(self).state == old(self).state,
            final(self).code == old(self).code,
            final(self).date == old(self).date,
            final(self).payee == old(self).payee,
            final(self).comment == old(self).comment,
            final(self).tags == old(self).tags,
            final(self).vtags == old(self).vtags,
    {
        match self.find_eliding() {
            Some(i) => Some(self.postings.remove(i)),
            None => None,
        }
    }
}

/// Two journal postings agree on everything but their unit price and
/// the number of their lot price.
pub open spec fn same_but_prices(a: Posting, b: Posting) -> bool {
    &&& a.date == b.date
    &&& a.state == b.state
    &&& a.acc_name == b.acc_name
    &&& a.quantity == b.quantity
    &&& a.lot_uprice.ptype == b.lot_uprice.ptype
    &&& a.lot_date == b.lot_date
    &&& a.lot_note == b.lot_note
    &&& a.comment == b.comment
    &&& a.tags == b.tags
    &&& a.vtags == b.vtags
}

/// In a transaction whose balance is `a` and `b`, of two commodities,
/// the primary commodity and the secondary one (see
/// `guess_primary_spec`).
pub fn guess_primary(ps: &Vec<Posting>, a: &Quantity, b: &Quantity) -> (r: Option<(Quantity, Quantity)>)
    ensures
        match r {
            Some(g) => guess_primary_spec(prices_seq(ps@), a@, b@) == Some((g.0@, g.1@)),
            None => guess_primary_spec(prices_seq(ps@), a@, b@) is None,
        },
{
    let ghost prs = prices_seq(ps@);
    if ps.len() == 0 {
        return None;
    }
    assert(prs[0] == posting_prices(ps@[0]));
    if a.s.same(&ps[0].quantity.s) {
        return Some((b.duplicate(), a.duplicate()));
    }
    if b.s.same(&ps[0].quantity.s) {
        return Some((a.duplicate(), b.duplicate()));
    }
    let mut k: usize = 0;
    while k < ps.len()
        invariant
            k <= ps@.len(),
            prs == prices_seq(ps@),
            prs.len() == ps@.len(),
            prs.len() > 0,
            a@.0 != prs[0].0.0,
            b@.0 != prs[0].0.0,
            guess_scan(prs, a@, b@, 0) == guess_scan(prs, a@, b@, k as int),
        decreases ps@.len() - k,
    {
        let p = &ps[k];
        assert(prs[k as int] == posting_prices(ps@[k as int]));
        if !p.uprice.s.same(&p.quantity.s) {
            if p.uprice.s.same(&a.s) {
                return Some((a.duplicate(), b.duplicate()));
            }
            if p.uprice.s.same(&b.s) {
                return Some((b.duplicate(), a.duplicate()));
            }
        }
        k = k + 1;
    }
    None
}

/// Prices the postings holding the secondary commodity `sec` in itself
/// at `|pri / sec|` of the primary commodity (see `fill`); `None` where
/// that division fails.
pub fn fill_inferred_prices(postings: Vec<Posting>, pri: &Quantity, sec: &Quantity) -> (r: Option<Vec<Posting>>)
    ensures
        r is None <==> !fill_ok(prices_seq(postings@), pri@, sec@),
        r matches Some(v) ==> {
            &&& prices_seq(v@) == fill(prices_seq(postings@), pri@, sec@)
            &&& v@.len() == postings@.len()
            &&& forall|i: int| 0 <= i < v@.len() ==> #[trigger] same_but_prices(v@[i], postings@[i])
        },
{
    let ghost orig = postings@;
    let ghost prs = prices_seq(orig);
    let ghost fl = fill(prs, pri@, sec@);
    let d = pri.q.checked_div(&sec.q);
    let total = postings.len();
    let mut todo = postings;
    let mut out: Vec<Posting> = Vec::new();
    let mut k: usize = 0;
    while todo.len() > 0
        invariant
            orig == postings@,
            total == orig.len(),
            k + todo@.len() == orig.len(),
            todo@ == orig.subrange(k as int, orig.len() as int),
            prs == prices_seq(orig),
            prs.len() == orig.len(),
            fl == fill(prs, pri@, sec@),
            fl.len() == orig.len(),
            out@.len() == k,
            d == decimal_div(pri.q, sec.q),
            forall|j: int| 0 <= j < k ==> #[trigger] same_but_prices(out@[j], orig[j]),
            forall|j: int| 0 <= j < k ==> #[trigger] posting_prices(out@[j]) == fl[j],
            forall|j: int| 0 <= j < k && #[trigger] needs_primary(prs[j], sec@) ==> psec_opt(pri@, sec@) is Some,
        decreases todo@.len(),
    {
        let mut p = todo.remove(0);
        assert(p == orig[k as int]);
        assert(prs[k as int] == posting_prices(orig[k as int]));
        if p.quantity.s.same(&p.uprice.s) && p.quantity.s.same(&sec.s) {
            match d {
                Some(dv) => {
                    let psec = Quantity { q: dv.abs(), s: pri.s.duplicate() };
                    p.uprice = psec.duplicate();
                    p.lot_uprice.price = psec;
                },
                None => {
                    assert(prs[k as int].0.0 == prs[k as int].1.0);
                    assert(prs[k as int].0.0 == sec@.0);
                    assert(needs_primary(prs[k as int], sec@));
                    assert(psec_opt(pri@, sec@) is None);
                    assert(!fill_ok(prs, pri@, sec@));
                    return None;
                },
            }
        }
        out.push(p);
        k = k + 1;
    }
    assert(prices_seq(out@) =~= fl);
    Some(out)
}

proof fn lemma_prices_seq(ps: Seq<Posting>, srcs: Seq<ParsedPosting>, rows: Seq<Prices>, date: Date)
    requires
        ps.len() == rows.len(),
        srcs.len() == rows.len(),
        forall|i: int| 0 <= i < rows.len() ==> #[trigger] posting_matches(ps[i], srcs[i], rows[i], date),
    ensures
        prices_seq(ps) == rows,
{
    assert forall|i: int| 0 <= i < rows.len() implies #[trigger] prices_seq(ps)[i] == rows[i] by {
        assert(posting_matches(ps[i], srcs[i], rows[i], date));
    }
    assert(prices_seq(ps) =~= rows);
}

/// The journal postings of parsed postings that all have an amount, and
/// the sum of their book values; `None` where a book value or the sum
/// overflows.
fn settle_postings(todo: Vec<ParsedPosting>, txdate: Date) -> (r: Option<(Vec<Posting>, Amount)>)
    requires
        forall|j: int| 0 <= j < todo@.len() ==> (#[trigger] todo@[j]).quantity is Some,
    ensures
        r is None <==> !(books_ok(base_prices(todo@)) && sum_ok(Seq::empty(), books(base_prices(todo@)))),
        r matches Some(res) ==> {
            &&& res.0@.len() == todo@.len()
            &&& forall|j: int|
                0 <= j < todo@.len() ==> #[trigger] posting_matches(
                    res.0@[j],
                    todo@[j],
                    base_prices(todo@)[j],
                    txdate,
                )
            &&& res.1.entries() == sum_all(Seq::empty(), books(base_prices(todo@)))
        },
{
    let ghost rest = todo@;
    let ghost base = base_prices(rest);
    let ghost bks = books(base);
    let mut todo = todo;
    let mut postings: Vec<Posting> = Vec::new();
    let mut bal = Amount::new();
    assert(bks.take(0) =~= Seq::<Entry>::empty());
    let total = todo.len();
    let mut k: usize = 0;
    let mut ok = true;
    while todo.len() > 0
        invariant_except_break
            ok,
            total == rest.len(),
            k + todo@.len() == rest.len(),
            todo@ == rest.subrange(k as int, rest.len() as int),
            postings@.len() == k,
            forall|j: int| 0 <= j < k ==> #[trigger] posting_matches(postings@[j], rest[j], base[j], txdate),
            forall|j: int| 0 <= j < k ==> #[trigger] book_opt(base[j]) is Some,
            sum_ok(Seq::empty(), bks.take(k as int)),
            bal.entries() == sum_all(Seq::empty(), bks.take(k as int)),
        invariant
            forall|j: int| 0 <= j < rest.len() ==> (#[trigger] rest[j]).quantity is Some,
            base == base_prices(rest),
            base.len() == rest.len(),
            bks == books(base),
            bks.len() == rest.len(),
        ensures
            ok ==> {
                &&& k == rest.len()
                &&& postings@.len() == k
                &&& forall|j: int| 0 <= j < k ==> #[trigger] posting_matches(postings@[j], rest[j], base[j], txdate)
                &&& forall|j: int| 0 <= j < k ==> #[trigger] book_opt(base[j]) is Some
                &&& sum_ok(Seq::empty(), bks.take(k as int))
                &&& bal.entries() == sum_all(Seq::empty(), bks.take(k as int))
            },
            !ok ==> !(books_ok(base) && sum_ok(Seq::empty(), bks)),
        decreases todo@.len(),
    {
        let p = todo.remove(0);
        assert(p == rest[k as int]);
        assert(base[k as int] == prices_of(p, p.quantity.unwrap()@));
        let post = p.into_posting(txdate);
        match post.lot_uprice.price.q.checked_mul(&post.quantity.q) {
            Some(bv) => {
                let bq = Quantity { q: bv, s: post.lot_uprice.price.s.duplicate() };
                assert(bq@ == bks[k as int]);
                assert(bks.take(k + 1).drop_last() =~= bks.take(k as int));
                assert(bks.take(k + 1).last() == bks[k as int]);
                if !bal.try_add_quantity(&bq) {
                    proof {
                        if sum_ok(Seq::empty(), bks) {
                            lemma_sum_ok_prefix(Seq::empty(), bks, k + 1);
                        }
                    }
                    ok = false;
                    break;
                }
                postings.push(post);
                k = k + 1;
            },
            None => {
                assert(book_opt(base[k as int]) is None);
                ok = false;
                break;
            },
        }
    }
    if !ok {
        return None;
    }
    assert(bks.take(rest.len() as int) =~= bks);
    Some((postings, bal))
}

/// The postings made from `el` to balance `bal`: one per commodity of
/// `bal`, of the opposite quantity.
fn eliding_postings(el: &ParsedPosting, bal: &Amount, txdate: Date) -> (r: Vec<Posting>)
    ensures
        r@.len() == bal.entries().len(),
        forall|j: int|
            0 <= j < r@.len() ==> #[trigger] posting_matches(
                r@[j],
                *el,
                eliding_prices(*el, bal.entries())[j],
                txdate,
            ),
{
    let ghost bal_es = bal.entries();
    let ghost elp = eliding_prices(*el, bal_es);
    let qs = bal.quantities();
    let mut out: Vec<Posting> = Vec::new();
    let mut i: usize = 0;
    while i < qs.len()
        invariant
            i <= qs@.len(),
            qs@.len() == bal_es.len(),
            forall|j: int| 0 <= j < qs@.len() ==> #[trigger] qs@[j]@ == bal_es[j],
            elp == eliding_prices(*el, bal_es),
            elp.len() == bal_es.len(),
            out@.len() == i,
            forall|j: int| 0 <= j < i ==> #[trigger] posting_matches(out@[j], *el, elp[j], txdate),
        decreases qs@.len() - i,
    {
        let qi = qs[i].duplicate();
        assert(qi@ == bal_es[i as int]);
        let nq = qi.neg();
        assert(nq@ == (bal_es[i as int].0, bal_es[i as int].1.neg_spec()));
        let dp = el.with_quantity(nq);
        let post = dp.into_posting(txdate);
        assert(prices_of(dp, nq@) == elp[i as int]);
        out.push(post);
        i = i + 1;
    }
    out
}

impl ParsedXact {
    /// Settles the transaction as `settle` says: the postings without
    /// amount are checked, the others priced, the missing amount
    /// inferred, the balance checked and conversions priced. `None`
    /// where a number overflows or no commodity of a conversion can be
    /// told primary.
    pub fn into_xact_checked(self) -> (r: Option<Result<Xact, ParseError>>)
        ensures
            match r {
                None => settle(self) is None,
                Some(Err(e)) => settle(self) == Some(
                    Err::<(Seq<ParsedPosting>, Seq<Prices>), ParseError>(e),
                ),
                Some(Ok(x)) => settle(self) matches Some(Ok(res)) && xact_matches(x, self, res.0, res.1),
            },
    {
        let ghost raw = self;
        let ghost ps = self.postings@;
        let n = self.neliding_amount();
        if n > MAX_ELIDING_AMOUNT {
            return Some(Err(ParseError::ElidingAmount(n)));
        }
        proof {
            lemma_with_amounts(ps);
        }
        let mut x = self;
        let eliding = x.maybe_remove_eliding();
        let ParsedXact { state, code, date, payee, comment, tags, vtags, postings: todo } = x;
        let txdate = date.txdate;
        let ghost rest = with_amounts(ps);
        let ghost base = base_prices(rest);
        let ghost bks = books(base);
        let ghost el_idx = first_eliding(ps);
        assert(todo@ == rest);
        let (mut postings, bal) = match settle_postings(todo, txdate) {
            Some(res) => res,
            None => {
                return None;
            },
        };
        let ghost bal_es = bal.entries();
        let qs = bal.quantities();
        let ghost srcs = if el_idx >= 0 {
            rest + Seq::new(bal_es.len(), |i: int| ps[el_idx])
        } else {
            rest
        };
        let ghost rows = if el_idx >= 0 {
            base + eliding_prices(ps[el_idx], bal_es)
        } else {
            base
        };
        match eliding {
            Some(el) => {
                let ghost before = postings@;
                let mut extra = eliding_postings(&el, &bal, txdate);
                let ghost ex = extra@;
                postings.append(&mut extra);
                proof {
                    let elp = eliding_prices(ps[el_idx], bal_es);
                    assert forall|j: int| 0 <= j < rows.len() implies #[trigger] posting_matches(postings@[j], srcs[j], rows[j], txdate) by {
                        if j >= rest.len() {
                            assert(postings@[j] == ex[j - rest.len()]);
                        } else {
                            assert(postings@[j] == before[j]);
                        }
                    }
                }
            },
            None => {
                let ar = bal.arity();
                if ar != 0 && ar != 2 {
                    return Some(Err(ParseError::XactNoBalanced));
                }
                if ar == 2 {
                    assert(qs@[0]@ == bal_es[0] && qs@[1]@ == bal_es[1]);
                    assert(el_idx < 0);
                    let p1 = match Dec::one().checked_mul(&qs[0].q) {
                        Some(v) => v,
                        None => {
                            return None;
                        },
                    };
                    let p2 = match p1.checked_mul(&qs[1].q) {
                        Some(v) => v,
                        None => {
                            return None;
                        },
                    };
                    if p2.is_positive() {
                        return Some(Err(ParseError::XactNoBalanced));
                    }
                }
                assert(rows == base);
                assert(srcs == rest);
            },
        }
        assert(postings@.len() == rows.len());
        assert(forall|j: int| 0 <= j < rows.len() ==> #[trigger] posting_matches(postings@[j], srcs[j], rows[j], txdate));
        proof {
            lemma_prices_seq(postings@, srcs, rows, txdate);
        }
        if bal.arity() == 2 {
            let g = guess_primary(&postings, &qs[0], &qs[1]);
            let (pri, sec) = match g {
                Some(g) => g,
                None => {
                    return None;
                },
            };
            let ghost before = postings@;
            postings = match fill_inferred_prices(postings, &pri, &sec) {
                Some(v) => v,
                None => {
                    return None;
                },
            };
            proof {
                let fl = fill(rows, pri@, sec@);
                assert forall|j: int| 0 <= j < rows.len() implies #[trigger] posting_matches(postings@[j], srcs[j], fl[j], txdate) by {
                    assert(same_but_prices(postings@[j], before[j]));
                    assert(posting_matches(before[j], srcs[j], rows[j], txdate));
                    assert(prices_seq(postings@)[j] == fl[j]);
                }
            }
        }
        Some(Ok(Xact { state, code, date, payee, comment, postings, tags, vtags }))
    }

    /// Settles the transaction (see `into_xact_checked`), where no number
    /// overflows and a conversion's primary commodity can be told.
    pub fn into_xact(self) -> (r: Result<Xact, ParseError>)
        requires
            settle(self) is Some,
        ensures
            match r {
                Err(e) => settle(self) == Some(Err::<(Seq<ParsedPosting>, Seq<Prices>), ParseError>(e)),
                Ok(x) => settle(self) matches Some(Ok(res)) && xact_matches(x, self, res.0, res.1),
            },
    {
        match self.into_xact_checked() {
            Some(r) => r,
            None => Err(ParseError::XactNoBalanced),
        }
    }
}

/// A journal: transactions and market prices, in the order they were
/// read.
pub struct Journal {
    xact: Vec<Xact>,
    market_prices: Vec<MarketPrice>,
}

/// The transactions dated within `b`.
pub open spec fn xacts_within(xs: Seq<Xact>, b: BetweenDate) -> Seq<Xact> {
    xs.filter(|x: Xact| b.contains(x.date.txdate))
}

/// The market prices dated within `b`.
pub open spec fn prices_within(ps: Seq<MarketPrice>, b: BetweenDate) -> Seq<MarketPrice> {
    ps.filter(|p: MarketPrice| b.contains(p.date_time.date))
}

fn keep_xacts(xs: Vec<Xact>, b: &BetweenDate) -> (r: Vec<Xact>)
    ensures
        r@ == xacts_within(xs@, *b),
{
    let ghost orig = xs@;
    let total = xs.len();
    let mut todo = xs;
    let mut out: Vec<Xact> = Vec::new();
    proof {
        reveal(Seq::filter);
    }
    assert(orig.take(0) =~= Seq::<Xact>::empty());
    let mut k: usize = 0;
    while todo.len() > 0
        invariant
            total == orig.len(),
            k + todo@.len() == orig.len(),
            todo@ == orig.subrange(k as int, orig.len() as int),
            out@ == xacts_within(orig.take(k as int), *b),
        decreases todo@.len(),
    {
        let x = todo.remove(0);
        proof {
            reveal(Seq::filter);
        }
        assert(orig.take(k + 1).drop_last() =~= orig.take(k as int));
        assert(orig.take(k + 1).last() == x);
        if b.check(x.date.txdate) {
            out.push(x);
        }
        k = k + 1;
    }
    assert(orig.take(orig.len() as int) =~= orig);
    out
}

/// `q` has no pattern, or some posting of `x` is to an account that `q`
/// matches.
pub open spec fn xact_matches_query(x: Xact, q: Query) -> bool {
    q.patterns().len() == 0 || exists|k: int|
        0 <= k < x.postings@.len() && q.matches_spec(#[trigger] x.postings@[k].acc_name@)
}

/// The transactions of `xs` with a posting to an account that `q`
/// matches.
pub open spec fn xacts_matching(xs: Seq<Xact>, q: Query) -> Seq<Xact> {
    xs.filter(|x: Xact| xact_matches_query(x, q))
}

/// Whether `q` has no pattern or some posting of `x` is to an account
/// that `q` matches.
pub fn matches_query(x: &Xact, q: &Query) -> (r: bool)
    ensures
        r == xact_matches_query(*x, *q),
{
    if q.is_empty() {
        return true;
    }
    let mut k: usize = 0;
    while k < x.postings.len()
        invariant
            k <= x.postings@.len(),
            forall|j: int| 0 <= j < k ==> !q.matches_spec(#[trigger] x.postings@[j].acc_name@),
        decreases x.postings@.len() - k,
    {
        if q.is_match(x.postings[k].acc_name.as_str()) {
            return true;
        }
        k = k + 1;
    }
    false
}

fn keep_matching(xs: Vec<Xact>, q: &Query) -> (r: Vec<Xact>)
    ensures
        r@ == xacts_matching(xs@, *q),
{
    let ghost orig = xs@;
    let total = xs.len();
    let mut todo = xs;
    let mut out: Vec<Xact> = Vec::new();
    proof {
        reveal(Seq::filter);
    }
    assert(orig.take(0) =~= Seq::<Xact>::empty());
    let mut k: usize = 0;
    while todo.len() > 0
        invariant
            total == orig.len(),
            k + todo@.len() == orig.len(),
            todo@ == orig.subrange(k as int, orig.len() as int),
            out@ == xacts_matching(orig.take(k as int), *q),
        decreases todo@.len(),
    {
        let x = todo.remove(0);
        proof {
            reveal(Seq::filter);
        }
        assert(orig.take(k + 1).drop_last() =~= orig.take(k as int));
        assert(orig.take(k + 1).last() == x);
        if matches_query(&x, q) {
            out.push(x);
        }
        k = k + 1;
    }
    assert(orig.take(orig.len() as int) =~= orig);
    out
}

fn keep_prices(ps: Vec<MarketPrice>, b: &BetweenDate) -> (r: Vec<MarketPrice>)
    ensures
        r@ == prices_within(ps@, *b),
{
    let ghost orig = ps@;
    let total = ps.len();
    let mut todo = ps;
    let mut out: Vec<MarketPrice> = Vec::new();
    proof {
        reveal(Seq::filter);
    }
    assert(orig.take(0) =~= Seq::<MarketPrice>::empty());
    let mut k: usize = 0;
    while todo.len() > 0
        invariant
            total == orig.len(),
            k + todo@.len() == orig.len(),
            todo@ == orig.subrange(k as int, orig.len() as int),
            out@ == prices_within(orig.take(k as int), *b),
        decreases todo@.len(),
    {
        let p = todo.remove(0);
        proof {
            reveal(Seq::filter);
        }
        assert(orig.take(k + 1).drop_last() =~= orig.take(k as int));
        assert(orig.take(k + 1).last() == p);
        if b.check(p.date_time.date) {
            out.push(p);
        }
        k = k + 1;
    }
    assert(orig.take(orig.len() as int) =~= orig);
    out
}

impl Journal {
    /// The transactions, in order.
    pub closed spec fn xacts_spec(&self) -> Seq<Xact> {
        self.xact@
    }

    /// The market prices, in order.
    pub closed spec fn prices_spec(&self) -> Seq<MarketPrice> {
        self.market_prices@
    }

    /// The journal of the given transactions and market prices.
    pub fn new(xacts: Vec<Xact>, market_prices: Vec<MarketPrice>) -> (r: Journal)
        ensures
            r.xacts_spec() == xacts@,
            r.prices_spec() == market_prices@,
    {
        Journal { xact: xacts, market_prices }
    }

    /// Keeps only the transactions that `q` selects (see
    /// `xact_matches_query`); the market prices stay.
    pub fn filter_by_query(self, q: &Query) -> (r: Journal)
        ensures
            r.xacts_spec() == xacts_matching(self.xacts_spec(), *q),
            r.prices_spec() == self.prices_spec(),
    {
        let Journal { xact, market_prices } = self;
        Journal { xact: keep_matching(xact, q), market_prices }
    }

    /// Keeps only the transactions and market prices dated within the
    /// range from `from` to `to`, both included when given.
    pub fn filter_by_date(self, from: Option<Date>, to: Option<Date>) -> (r: Journal)
        ensures
            r.xacts_spec() == xacts_within(self.xacts_spec(), BetweenDate::with_bounds(from, to)),
            r.prices_spec() == prices_within(self.prices_spec(), BetweenDate::with_bounds(from, to)),
    {
        let between = BetweenDate::new(from, to);
        let Journal { xact, market_prices } = self;
        Journal { xact: keep_xacts(xact, &between), market_prices: keep_prices(market_prices, &between) }
    }

    /// The total number of transactions in the journal.
    pub fn nxact(&self) -> (r: usize)
        ensures
            r == self.xacts_spec().len(),
    {
        self.xact.len()
    }

    /// All transactions, in order.
    pub fn xacts(&self) -> (r: &[Xact])
        ensures
            r@ == self.xacts_spec(),
    {
        self.xact.as_slice()
    }

    /// The first `n` transactions (all of them when there are fewer).
    pub fn xacts_head(&self, n: usize) -> (r: &[Xact])
        ensures
            r@ == self.xacts_spec().take(if n < self.xacts_spec().len() { n as int } else { self.xacts_spec().len() as int }),
    {
        let k = if n < self.xact.len() {
            n
        } else {
            self.xact.len()
        };
        let (head, _) = self.xact.as_slice().split_at(k);
        assert(head@ =~= self.xact@.take(k as int));
        head
    }

    /// The last `n` transactions (all of them when there are fewer), in
    /// order.
    pub fn xacts_tail(&self, n: usize) -> (r: &[Xact])
        ensures
            r@ == self.xacts_spec().skip(if n < self.xacts_spec().len() { self.xacts_spec().len() - n } else { 0 }),
    {
        let len = self.xact.len();
        let k = if n < len {
            len - n
        } else {
            0
        };
        let (_, tail) = self.xact.as_slice().split_at(k);
        assert(tail@ =~= self.xact@.skip(k as int));
        tail
    }

    /// All market prices, in order.
    pub fn market_prices(&self) -> (r: &[MarketPrice])
        ensures
            r@ == self.prices_spec(),
    {
        self.market_prices.as_slice()
    }
}

/// Settles transactions in order, up to the first that fails: the
/// sources and settled numbers of each, or the first error; `None` where
/// one overflows before any error.
pub open spec fn settle_list(xs: Seq<ParsedXact>) -> Option<Result<Seq<(Seq<ParsedPosting>, Seq<Prices>)>, ParseError>>
    decreases xs.len(),
{
    if xs.len() == 0 {
        Some(Ok(Seq::empty()))
    } else {
        match settle_list(xs.drop_last()) {
            Some(Ok(rs)) => match settle(xs.last()) {
                Some(Ok(r)) => Some(Ok(rs.push(r))),
                Some(Err(e)) => Some(Err(e)),
                None => None,
            },
            other => other,
        }
    }
}

/// `v` are the journal transactions made from `xs`, as `rs` says.
pub open spec fn xacts_match(v: Seq<Xact>, xs: Seq<ParsedXact>, rs: Seq<(Seq<ParsedPosting>, Seq<Prices>)>) -> bool {
    &&& v.len() == xs.len()
    &&& rs.len() == xs.len()
    &&& forall|i: int| 0 <= i < v.len() ==> #[trigger] xact_matches(v[i], xs[i], rs[i].0, rs[i].1)
}

/// What decoding one transaction or a list of them gives: the settled
/// transaction or transactions, the first settling error, or, when
/// neither decoding succeeded, the error of decoding one transaction.
pub open spec fn one_or_many_spec(
    single: Result<ParsedXact, String>,
    many: Result<Vec<ParsedXact>, String>,
    r: Option<Result<Vec<Xact>, ParseError>>,
) -> bool {
    match single {
        Ok(x) => match settle(x) {
            None => r is None,
            Some(Err(e)) => r == Some(Err::<Vec<Xact>, ParseError>(e)),
            Some(Ok(res)) => r matches Some(Ok(v)) && xacts_match(v@, seq![x], seq![res]),
        },
        Err(se) => match many {
            Ok(xs) => match settle_list(xs@) {
                None => r is None,
                Some(Err(e)) => r == Some(Err::<Vec<Xact>, ParseError>(e)),
                Some(Ok(rs)) => r matches Some(Ok(v)) && xacts_match(v@, xs@, rs),
            },
            Err(_) => r == Some(Err::<Vec<Xact>, ParseError>(ParseError::Deser(se))),
        },
    }
}

fn settle_all(xs: Vec<ParsedXact>) -> (r: Option<Result<Vec<Xact>, ParseError>>)
    ensures
        match settle_list(xs@) {
            None => r is None,
            Some(Err(e)) => r == Some(Err::<Vec<Xact>, ParseError>(e)),
            Some(Ok(rs)) => r matches Some(Ok(v)) && xacts_match(v@, xs@, rs),
        },
{
    let ghost orig = xs@;
    let total = xs.len();
    let mut todo = xs;
    let mut out: Vec<Xact> = Vec::new();
    let mut k: usize = 0;
    let ghost mut rs: Seq<(Seq<ParsedPosting>, Seq<Prices>)> = Seq::empty();
    assert(orig.take(0) =~= Seq::<ParsedXact>::empty());
    while todo.len() > 0
        invariant
            orig == xs@,
            total == orig.len(),
            k + todo@.len() == orig.len(),
            todo@ == orig.subrange(k as int, orig.len() as int),
            settle_list(orig.take(k as int)) == Some(Ok::<Seq<(Seq<ParsedPosting>, Seq<Prices>)>, ParseError>(rs)),
            xacts_match(out@, orig.take(k as int), rs),
        decreases todo@.len(),
    {
        let x = todo.remove(0);
        let ghost xv = x;
        assert(orig.take(k + 1).drop_last() =~= orig.take(k as int));
        assert(orig.take(k + 1).last() == xv);
        match x.into_xact_checked() {
            Some(Ok(t)) => {
                let ghost res = settle(xv)->Some_0->Ok_0;
                let ghost rs2 = rs.push(res);
                assert forall|i: int| 0 <= i < k + 1 implies #[trigger] xact_matches(
                    out@.push(t)[i],
                    orig.take(k + 1)[i],
                    rs2[i].0,
                    rs2[i].1,
                ) by {
                    if i < k {
                        assert(xact_matches(out@[i], orig.take(k as int)[i], rs[i].0, rs[i].1));
                        assert(orig.take(k + 1)[i] == orig.take(k as int)[i]);
                    }
                }
                out.push(t);
                proof {
                    rs = rs2;
                }
                k = k + 1;
            },
            Some(Err(e)) => {
                proof {
                    lemma_settle_list_stops(orig, (k + 1) as int);
                }
                return Some(Err(e));
            },
            None => {
                proof {
                    lemma_settle_list_stops(orig, (k + 1) as int);
                }
                return None;
            },
        }
    }
    assert(orig.take(orig.len() as int) =~= orig);
    Some(Ok(out))
}

/// Once settling a prefix fails, settling the whole list fails the same
/// way.
proof fn lemma_settle_list_stops(xs: Seq<ParsedXact>, n: int)
    requires
        0 <= n <= xs.len(),
        !(settle_list(xs.take(n)) matches Some(Ok(_))),
    ensures
        settle_list(xs) == settle_list(xs.take(n)),
    decreases xs.len(),
{
    if n < xs.len() {
        let init = xs.drop_last();
        assert(init.take(n) =~= xs.take(n));
        lemma_settle_list_stops(init, n);
    } else {
        assert(xs.take(n) =~= xs);
    }
}

/// What one or the other decoder gives, as `one_or_many_checked` uses
/// them: `single` has answered `s`, and, where `s` is an error, `many`
/// has answered `m`.
pub open spec fn decoded<S, M>(single: S, many: M, s: Result<ParsedXact, String>, m: Result<Vec<ParsedXact>, String>) -> bool where
    S: FnOnce() -> Result<ParsedXact, String>,
    M: FnOnce() -> Result<Vec<ParsedXact>, String>,
 {
    &&& single.ensures((), s)
    &&& s is Err ==> many.ensures((), m)
}

/// Settles either the one transaction that `single` decodes or, only
/// when that decoding fails, the list that `many` decodes (see
/// `one_or_many_spec`); each decoder is called at most once, and `many`
/// need not be callable where `single` cannot fail. `None` where a number
/// overflows or a conversion's primary commodity cannot be told.
pub fn one_or_many_checked<S, M>(single: S, many: M) -> (r: Option<Result<Vec<Xact>, ParseError>>) where
    S: FnOnce() -> Result<ParsedXact, String>,
    M: FnOnce() -> Result<Vec<ParsedXact>, String>,

    requires
        single.requires(()),
        forall|s: Result<ParsedXact, String>| #[trigger] single.ensures((), s) && s is Err ==> many.requires(()),
    ensures
        exists|s: Result<ParsedXact, String>, m: Result<Vec<ParsedXact>, String>|
            #[trigger] decoded(single, many, s, m) && one_or_many_spec(s, m, r),
{
    let s = single();
    match s {
        Ok(x) => {
            let ghost xv = x;
            let ghost m = arbitrary::<Result<Vec<ParsedXact>, String>>();
            match x.into_xact_checked() {
                Some(Ok(t)) => {
                    let mut v = Vec::new();
                    v.push(t);
                    proof {
                        let res = settle(xv)->Some_0->Ok_0;
                        assert(xact_matches(v@[0], seq![xv][0], seq![res][0].0, seq![res][0].1));
                        assert(decoded(single, many, Ok(xv), m));
                    }
                    Some(Ok(v))
                },
                Some(Err(e)) => {
                    assert(decoded(single, many, Ok(xv), m));
                    Some(Err(e))
                },
                None => {
                    assert(decoded(single, many, Ok(xv), m));
                    None
                },
            }
        },
        Err(se) => {
            let ms = many();
            let ghost mv = ms;
            let ghost sv = Err::<ParsedXact, String>(se);
            let r = match ms {
                Ok(xs) => settle_all(xs),
                Err(_) => Some(Err(ParseError::Deser(se))),
            };
            assert(decoded(single, many, sv, mv));
            r
        },
    }
}

/// Settles either the one transaction that `single` decodes or, only
/// when that decoding fails, the list that `many` decodes, where no
/// number overflows and every conversion's primary commodity can be told.
pub fn one_or_many<S, M>(single: S, many: M) -> (r: Result<Vec<Xact>, ParseError>) where
    S: FnOnce() -> Result<ParsedXact, String>,
    M: FnOnce() -> Result<Vec<ParsedXact>, String>,

    requires
        single.requires(()),
        forall|s: Result<ParsedXact, String>| #[trigger] single.ensures((), s) && s is Err ==> many.requires(()),
        forall|s: Result<ParsedXact, String>| #[trigger] single.ensures((), s) ==> (s matches Ok(x) ==> settle(x) is Some),
        forall|m: Result<Vec<ParsedXact>, String>| #[trigger] many.ensures((), m) ==> (m matches Ok(xs) ==> settle_list(xs@) is Some),
    ensures
        exists|s: Result<ParsedXact, String>, m: Result<Vec<ParsedXact>, String>|
            #[trigger] decoded(single, many, s, m) && one_or_many_spec(s, m, Some(r)),
{
    match one_or_many_checked(single, many) {
        Some(r) => r,
        None => Err(ParseError::XactNoBalanced),
    }
}

/// The price written after a posting's amount: `@ price` per unit, or
/// `@@ total` for the whole amount.
#[derive(Debug)]
pub enum PriceClause {
    PerUnit(Quantity),
    Total(Quantity),
}

/// The lot annotations of a posting: `{price}`, `{=price}` or
/// `{{total}}`, `[date]` and `(note)`.
#[derive(Debug)]
pub struct Lots {
    pub price: Option<Quantity>,
    pub price_type: Option<PriceType>,
    pub price_basis: Option<PriceBasis>,
    pub date: Option<Date>,
    pub note: String,
}

/// `total / |q|`, in the commodity of `total` (`None` where the division
/// fails).
pub open spec fn per_unit(total: Quantity, q: Quantity) -> Option<Quantity> {
    match decimal_div(total.q, q.q.abs_spec()) {
        Some(v) => Some(Quantity { q: v, s: total.s }),
        None => None,
    }
}

/// The unit price a price clause gives: the price itself per unit, the
/// total divided by the absolute amount. `None` where there is no amount
/// to divide by or the division fails.
pub open spec fn clause_uprice(quantity: Option<Quantity>, price: Option<PriceClause>) -> Option<Option<Quantity>> {
    match price {
        None => Some(None),
        Some(PriceClause::PerUnit(p)) => Some(Some(p)),
        Some(PriceClause::Total(p)) => match quantity {
            Some(q) => match per_unit(p, q) {
                Some(u) => Some(Some(u)),
                None => None,
            },
            None => None,
        },
    }
}

/// The unit lot price the lot annotations give, as `clause_uprice` does;
/// `None` also where a lot price comes without its kind or basis.
pub open spec fn lots_uprice(quantity: Option<Quantity>, lots: Lots) -> Option<Option<LotPrice>> {
    match lots.price {
        None => Some(None),
        Some(p) => match (lots.price_basis, lots.price_type) {
            (Some(PriceBasis::PerUnit), Some(t)) => Some(Some(LotPrice { price: p, ptype: t })),
            (Some(PriceBasis::Total), Some(t)) => match quantity {
                Some(q) => match per_unit(p, q) {
                    Some(u) => Some(Some(LotPrice { price: u, ptype: t })),
                    None => None,
                },
                None => None,
            },
            _ => None,
        },
    }
}

fn divide_per_unit(total: Quantity, q: &Quantity) -> (r: Option<Quantity>)
    ensures
        r == per_unit(total, *q),
{
    let a = q.q.abs();
    match total.q.checked_div(&a) {
        Some(v) => Some(Quantity { q: v, s: total.s }),
        None => None,
    }
}

/// Builds a parsed posting from the pieces of a posting line: the unit
/// price from the price clause and the lot price from the lot
/// annotations (a total divided by the absolute amount), and the comment,
/// tags and value tags from the comment lines (see `parse_comment`).
/// `None` where a total has no amount to divide by, the division fails,
/// or a lot price comes without its kind or basis.
pub fn parse_posting_parts(
    state: State,
    account: String,
    quantity: Option<Quantity>,
    price: Option<PriceClause>,
    lots: Lots,
    comment_lines: &Vec<String>,
) -> (r: Option<ParsedPosting>)
    ensures
        r is Some <==> (clause_uprice(quantity, price) is Some && lots_uprice(quantity, lots) is Some),
        r matches Some(p) ==> {
            &&& p.state == state
            &&& p.account == account
            &&& p.quantity == quantity
            &&& p.uprice == clause_uprice(quantity, price).unwrap()
            &&& p.lot_uprice == lots_uprice(quantity, lots).unwrap()
            &&& p.lot_date == lots.date
            &&& p.lot_note == lots.note
            &&& p.comment@ == join_lines(comment_lines@.map_values(|l: String| l@))
            &&& p.tags@.map_values(|t: Tag| t@) == lines_tags(comment_lines@.map_values(|l: String| l@))
            &&& vtag_views(p.vtags@) == lines_vtags(comment_lines@.map_values(|l: String| l@))
        },
{
    let uprice = match price {
        None => None,
        Some(PriceClause::PerUnit(p)) => Some(p),
        Some(PriceClause::Total(p)) => match &quantity {
            Some(q) => match divide_per_unit(p, q) {
                Some(u) => Some(u),
                None => {
                    return None;
                },
            },
            None => {
                return None;
            },
        },
    };
    let Lots { price: lp, price_type, price_basis, date, note } = lots;
    let lot_uprice = match lp {
        None => None,
        Some(p) => match (price_basis, price_type) {
            (Some(PriceBasis::PerUnit), Some(t)) => Some(LotPrice { price: p, ptype: t }),
            (Some(PriceBasis::Total), Some(t)) => match &quantity {
                Some(q) => match divide_per_unit(p, q) {
                    Some(u) => Some(LotPrice { price: u, ptype: t }),
                    None => {
                        return None;
                    },
                },
                None => {
                    return None;
                },
            },
            _ => {
                return None;
            },
        },
    };
    let (comment, tags, vtags) = parse_comment(comment_lines);
    Some(
        ParsedPosting {
            state,
            account,
            quantity,
            uprice,
            lot_uprice,
            lot_date: date,
            lot_note: note,
            comment,
            tags,
            vtags,
        },
    )
}

/// The book values of the postings that have an amount, added up.
pub open spec fn xact_balance(x: ParsedXact) -> Seq<Entry> {
    sum_all(Seq::empty(), books(base_prices(with_amounts(x.postings@))))
}

/// Without postings lacking an amount there is no first one.
proof fn lemma_no_eliding(ps: Seq<ParsedPosting>)
    requires
        count_eliding(ps) == 0,
    ensures
        first_eliding(ps) < 0,
    decreases ps.len(),
{
    if ps.len() > 0 {
        lemma_no_eliding(ps.drop_last());
    }
}

/// A transaction whose postings all have an amount is accepted only
/// where their book values add up to nothing, or to two commodities of
/// opposite signs (a conversion from one to the other).
pub proof fn law_accepted_xact_balances(x: ParsedXact)
    requires
        count_eliding(x.postings@) == 0,
        settle(x) matches Some(Ok(_)),
    ensures
        xact_balance(x).len() == 0 || (xact_balance(x).len() == 2 && (product_of_two(
            xact_balance(x)[0].1,
            xact_balance(x)[1].1,
        ) matches Some(p) && p.mant() <= 0)),
{
    lemma_no_eliding(x.postings@);
}

/// A transaction whose postings all have an amount, and whose book values
/// add up to a single commodity, is rejected as unbalanced (where no book
/// value or sum overflows).
pub proof fn law_unbalanced_xact_rejected(x: ParsedXact)
    requires
        count_eliding(x.postings@) == 0,
        books_ok(base_prices(with_amounts(x.postings@))),
        sum_ok(Seq::empty(), books(base_prices(with_amounts(x.postings@)))),
        xact_balance(x).len() == 1,
    ensures
        settle(x) == Some(Err::<(Seq<ParsedPosting>, Seq<Prices>), ParseError>(ParseError::XactNoBalanced)),
{
    lemma_no_eliding(x.postings@);
}

/// Where one posting lacks an amount and the others leave a balance that
/// is not a two-commodity conversion, the accepted transaction gives the
/// posting, for each commodity of the balance, the opposite quantity.
pub proof fn law_elided_amount_inferred(x: ParsedXact)
    requires
        count_eliding(x.postings@) == 1,
        settle(x) matches Some(Ok(_)),
        xact_balance(x).len() != 2,
    ensures
        ({
            let bal = xact_balance(x);
            let rows = settle(x).unwrap().unwrap().1;
            let n = with_amounts(x.postings@).len();
            &&& rows.len() == n + bal.len()
            &&& forall|k: int| 0 <= k < bal.len() ==> (#[trigger] rows[n + k]).0 == (bal[k].0, bal[k].1.neg_spec())
        }),
{
    lemma_one_eliding(x.postings@);
}

/// A transaction with more than one posting lacking an amount is
/// rejected, the error telling how many it has.
pub proof fn law_too_many_elided_amounts(x: ParsedXact)
    requires
        count_eliding(x.postings@) > MAX_ELIDING_AMOUNT,
    ensures
        settle(x) == Some(
            Err::<(Seq<ParsedPosting>, Seq<Prices>), ParseError>(
                ParseError::ElidingAmount(count_eliding(x.postings@) as usize),
            ),
        ),
{
}

/// With exactly one posting lacking an amount, it is the first one.
proof fn lemma_one_eliding(ps: Seq<ParsedPosting>)
    requires
        count_eliding(ps) == 1,
    ensures
        first_eliding(ps) >= 0,
    decreases ps.len(),
{
    if ps.len() > 0 {
        let init = ps.drop_last();
        if count_eliding(init) == 1 {
            lemma_one_eliding(init);
        } else {
            assert(ps.last().quantity is None);
        }
    }
}

/// Filtering by date without bounds keeps every transaction and every
/// market price.
pub proof fn law_filter_unbounded(xs: Seq<Xact>, ps: Seq<MarketPrice>)
    ensures
        xacts_within(xs, BetweenDate::with_bounds(None, None)) == xs,
        prices_within(ps, BetweenDate::with_bounds(None, None)) == ps,
    decreases xs.len() + ps.len(),
{
    reveal(Seq::filter);
    if xs.len() > 0 {
        law_filter_unbounded(xs.drop_last(), ps);
        assert(xacts_within(xs, BetweenDate::with_bounds(None, None)) =~= xacts_within(
            xs.drop_last(),
            BetweenDate::with_bounds(None, None),
        ).push(xs.last()));
        assert(xs.drop_last().push(xs.last()) =~= xs);
    } else {
        assert(xacts_within(xs, BetweenDate::with_bounds(None, None)) =~= xs);
    }
    if ps.len() > 0 {
        law_filter_unbounded(Seq::empty(), ps.drop_last());
        assert(prices_within(ps, BetweenDate::with_bounds(None, None)) =~= prices_within(
            ps.drop_last(),
            BetweenDate::with_bounds(None, None),
        ).push(ps.last()));
        assert(ps.drop_last().push(ps.last()) =~= ps);
    } else {
        assert(prices_within(ps, BetweenDate::with_bounds(None, None)) =~= ps);
    }
}

} // verus!
