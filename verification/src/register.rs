//! The register report: for each transaction, the rows it adds, each
//! with the running total of everything reported so far.
//!
//! Without a depth limit a row is one posting; with one, the postings
//! of a transaction are first gathered into a balance view whose
//! account names are cut down to that depth, and a row is one account
//! of its flat view.

use vstd::prelude::*;

use crate::account::{names_sorted_v, view_as_of, Balance};
use crate::accview::{AccTree, AccountView, FlatAccountView};
use crate::amount::{amount_of, Amount, Entry};
use crate::balview::{accounts_of, flat_into, limit_all, Keyed};
use crate::catalog::{lemma_seq_lt, seq_lt};
use crate::date::Date;
use crate::decimal::decimal_mul;
use crate::holdings::{hold_value, LotView};
use crate::journal::AccName;
use crate::ledger::postings_to;
use crate::ntypes::Arithmetic;
use crate::prices::{PriceDB, PriceKey};
use crate::quantity::Quantity;
use crate::report::Valuation;
use crate::tamount::{date_lt, lemma_ts_map, TAmount};
use crate::holdings::Holdings;
use crate::xact::{Posting, Xact};

verus! {

/// One row of the register: an account name, the amount it adds, and
/// the running total of every row so far.
#[derive(Debug)]
pub struct RegisterRow {
    /// Account name of the row, cut down to the depth limit if any.
    pub acc_name: AccName,
    /// What the row adds: a posting's value, or the value of an
    /// account of the transaction under the depth limit.
    pub total: Amount,
    /// The sum of `total` over every row reported so far, this one
    /// included.
    pub running_total: Amount,
}

/// The rows that one transaction adds to the register.
#[derive(Debug)]
pub struct RegisterGroup<'a> {
    /// Date of the transaction.
    pub date: &'a Date,
    /// Payee of the transaction.
    pub payee: &'a str,
    /// Its rows, in order.
    pub rows: Vec<RegisterRow>,
}

/// A row by value: account name, total, running total.
pub type RowView = (Seq<char>, Seq<Entry>, Seq<Entry>);

/// What a transaction contributes before accumulation: account name,
/// value and quantity.
pub type EntryView = (Seq<char>, Seq<Entry>, Seq<Entry>);

/// A group by value: date, payee, rows.
pub type GroupView = (Date, Seq<char>, Seq<RowView>);

/// The row by value.
pub open spec fn row_view(r: RegisterRow) -> RowView {
    (r.acc_name@, r.total@, r.running_total@)
}

/// The group by value.
pub open spec fn group_view<'a>(g: RegisterGroup<'a>) -> GroupView {
    (*g.date, g.payee@, g.rows@.map_values(|r: RegisterRow| row_view(r)))
}

/// `a + b` on amounts, `None` on overflow.
pub open spec fn amount_plus(a: Seq<Entry>, b: Seq<Entry>) -> Option<Seq<Entry>> {
    <Amount as Arithmetic>::merge_spec(a, b, false)
}

/// The entry of posting `p`: its account name, its value and its
/// quantity. The quantity valuation takes the quantity itself; the
/// others take the value at the lot price (`None` where that product
/// overflows).
pub open spec fn posting_entry(p: Posting, val: Valuation) -> Option<EntryView> {
    let qty = amount_of(p.quantity.s@, p.quantity.q);
    match val {
        Valuation::Quantity => Some((p.acc_name@, qty, qty)),
        _ => match decimal_mul(p.lot_uprice.price.q, p.quantity.q) {
            Some(m) => Some((p.acc_name@, amount_of(p.lot_uprice.price.s@, m), qty)),
            None => None,
        },
    }
}

/// The entries of the postings `ps`, in order.
pub open spec fn posting_entries(ps: Seq<Posting>, val: Valuation) -> Option<Seq<EntryView>>
    decreases ps.len(),
{
    if ps.len() == 0 {
        Some(Seq::empty())
    } else {
        match (posting_entries(ps.drop_last(), val), posting_entry(ps.last(), val)) {
            (Some(es), Some(e)) => Some(es.push(e)),
            _ => None,
        }
    }
}

/// The accounts of the postings of `x` in name order, each with its
/// postings of `x`.
pub open spec fn accounts_of_xact(v: Seq<(Seq<char>, Seq<Posting>)>, x: Xact) -> bool {
    &&& names_sorted_v(v)
    &&& forall|i: int| 0 <= i < v.len() ==> (#[trigger] v[i]).1 == postings_to(x.postings@, v[i].0)
    &&& forall|name: Seq<char>|
        (exists|i: int| 0 <= i < v.len() && (#[trigger] v[i]).0 == name) <==> #[trigger] postings_to(
            x.postings@,
            name,
        ).len() > 0
}

/// The accounts of the postings of `x` (see `accounts_of_xact`; there
/// is exactly one such sequence).
pub open spec fn xact_accounts(x: Xact) -> Seq<(Seq<char>, Seq<Posting>)> {
    choose|v: Seq<(Seq<char>, Seq<Posting>)>| accounts_of_xact(v, x)
}

/// `d` is the earliest date of `m`.
pub open spec fn is_first<M>(m: Map<Date, M>, d: Date) -> bool {
    &&& m.dom().contains(d)
    &&& forall|e: Date| #[trigger] m.dom().contains(e) ==> d.before_eq(e)
}

/// The entry of a flat account: its name, and the value and quantity of
/// its holdings at the earliest date of its balance; `None` where the
/// balance has no date or a sum overflows.
pub open spec fn flat_entry(t: AccTree<Map<Date, Seq<LotView>>>, val: Valuation) -> Option<EntryView> {
    if exists|d: Date| is_first(t.bal, d) {
        let h = t.bal[choose|d: Date| is_first(t.bal, d)];
        match (hold_value(h, val), hold_value(h, Valuation::Quantity)) {
            (Some(a), Some(q)) => Some((t.name, a, q)),
            _ => None,
        }
    } else {
        None
    }
}

/// The entries of the flat accounts `s`, in order.
pub open spec fn flat_entries(s: Seq<Keyed<Map<Date, Seq<LotView>>>>, val: Valuation) -> Option<Seq<EntryView>>
    decreases s.len(),
{
    if s.len() == 0 {
        Some(Seq::empty())
    } else {
        match (flat_entries(s.drop_last(), val), flat_entry(s.last().1, val)) {
            (Some(es), Some(e)) => Some(es.push(e)),
            _ => None,
        }
    }
}

/// The entries that transaction `x` contributes: one per posting with no
/// depth limit (`depth == 0`); otherwise one per account of the flat
/// view of its balance view as of its date, with names cut down to
/// `depth`.
pub open spec fn xact_entries_spec(x: Xact, val: Valuation, db: Map<PriceKey, Quantity>, depth: nat) -> Option<
    Seq<EntryView>,
> {
    if depth == 0 {
        posting_entries(x.postings@, val)
    } else {
        match view_as_of(xact_accounts(x), x.date.txdate, db) {
            Some(v) => match flat_into::<TAmount<Holdings>>(Seq::empty(), accounts_of(limit_all(v, depth))) {
                Some(f) => flat_entries(f, val),
                None => None,
            },
            None => None,
        }
    }
}

/// The rows of the entries `es`, with the running value total starting
/// at `av` and the running quantity total at `aq`; also the two totals
/// at the end. `None` where a sum overflows.
pub open spec fn rows_of(es: Seq<EntryView>, av: Seq<Entry>, aq: Seq<Entry>) -> Option<
    (Seq<RowView>, Seq<Entry>, Seq<Entry>),
>
    decreases es.len(),
{
    if es.len() == 0 {
        Some((Seq::empty(), av, aq))
    } else {
        match rows_of(es.drop_last(), av, aq) {
            Some((rs, v, q)) => match (amount_plus(v, es.last().1), amount_plus(q, es.last().2)) {
                (Some(v2), Some(q2)) => Some((rs.push((es.last().0, es.last().1, v2)), v2, q2)),
                _ => None,
            },
            None => None,
        }
    }
}

/// The register of the transactions `xs`: a group for each transaction
/// that adds rows, in order, with the two running totals at the end.
pub open spec fn reg_run(xs: Seq<Xact>, val: Valuation, db: Map<PriceKey, Quantity>, depth: nat) -> Option<
    (Seq<GroupView>, Seq<Entry>, Seq<Entry>),
>
    decreases xs.len(),
{
    if xs.len() == 0 {
        Some((Seq::empty(), Seq::empty(), Seq::empty()))
    } else {
        match reg_run(xs.drop_last(), val, db, depth) {
            Some((gs, v, q)) => match xact_entries_spec(xs.last(), val, db, depth) {
                Some(es) => match rows_of(es, v, q) {
                    Some((rs, v2, q2)) => Some(
                        (
                            if rs.len() > 0 {
                                gs.push((xs.last().date.txdate, xs.last().payee@, rs))
                            } else {
                                gs
                            },
                            v2,
                            q2,
                        ),
                    ),
                    None => None,
                },
                None => None,
            },
            None => None,
        }
    }
}

/// What the register asks of a transaction: with a depth limit, account
/// names that are not empty; with none and the historical valuation,
/// postings without a lot date.
pub open spec fn xact_reportable(x: Xact, val: Valuation, depth: nat) -> bool {
    forall|k: int|
        0 <= k < x.postings@.len() ==> {
            &&& (depth > 0 ==> (#[trigger] x.postings@[k]).acc_name@.len() > 0)
            &&& (depth == 0 && val is Historical ==> x.postings@[k].lot_date is None)
        }
}

/// Names in strictly increasing order.
spec fn strictly_sorted(a: Seq<Seq<char>>) -> bool {
    forall|i: int, j: int| 0 <= i < j < a.len() ==> seq_lt(#[trigger] a[i], #[trigger] a[j])
}

/// Two sequences of names in strictly increasing order with the same
/// names are the same.
proof fn lemma_sorted_names_unique(a: Seq<Seq<char>>, b: Seq<Seq<char>>)
    requires
        strictly_sorted(a),
        strictly_sorted(b),
        forall|n: Seq<char>| a.contains(n) <==> b.contains(n),
    ensures
        a == b,
    decreases a.len(),
{
    if a.len() == 0 {
        if b.len() > 0 {
            assert(b.contains(b[0]));
        }
        assert(a =~= b);
    } else {
        assert(a.contains(a[0]));
        assert(b.contains(a[0]));
        let j = choose|j: int| 0 <= j < b.len() && b[j] == a[0];
        assert(b.contains(b[0]));
        assert(a.contains(b[0]));
        let i = choose|i: int| 0 <= i < a.len() && a[i] == b[0];
        lemma_seq_lt(a[0], b[0], a[i]);
        if j > 0 {
            assert(seq_lt(b[0], b[j]));
            if i > 0 {
                assert(seq_lt(a[0], a[i]));
            }
            assert(false);
        }
        assert(a[0] == b[0]);
        let ta = a.drop_first();
        let tb = b.drop_first();
        assert forall|n: Seq<char>| ta.contains(n) <==> tb.contains(n) by {
            if ta.contains(n) {
                let k = choose|k: int| 0 <= k < ta.len() && ta[k] == n;
                assert(a[k + 1] == n);
                assert(seq_lt(a[0], n));
                lemma_seq_lt(n, n, n);
                assert(a.contains(n));
                let m = choose|m: int| 0 <= m < b.len() && b[m] == n;
                assert(m != 0);
                assert(tb[m - 1] == n);
            }
            if tb.contains(n) {
                let k = choose|k: int| 0 <= k < tb.len() && tb[k] == n;
                assert(b[k + 1] == n);
                assert(seq_lt(b[0], n));
                lemma_seq_lt(n, n, n);
                assert(b.contains(n));
                let m = choose|m: int| 0 <= m < a.len() && a[m] == n;
                assert(m != 0);
                assert(ta[m - 1] == n);
            }
        }
        assert forall|p: int, q: int| 0 <= p < q < ta.len() implies seq_lt(#[trigger] ta[p], #[trigger] ta[q]) by {
            assert(ta[p] == a[p + 1] && ta[q] == a[q + 1]);
        }
        assert forall|p: int, q: int| 0 <= p < q < tb.len() implies seq_lt(#[trigger] tb[p], #[trigger] tb[q]) by {
            assert(tb[p] == b[p + 1] && tb[q] == b[q + 1]);
        }
        lemma_sorted_names_unique(ta, tb);
        assert(a =~= seq![a[0]] + ta);
        assert(b =~= seq![b[0]] + tb);
    }
}

/// The accounts of the postings of a transaction are unique: any
/// sequence that `accounts_of_xact` admits is `xact_accounts`.
proof fn lemma_xact_accounts(v: Seq<(Seq<char>, Seq<Posting>)>, x: Xact)
    requires
        accounts_of_xact(v, x),
    ensures
        v == xact_accounts(x),
{
    let w = xact_accounts(x);
    assert(accounts_of_xact(w, x));
    let a = v.map_values(|e: (Seq<char>, Seq<Posting>)| e.0);
    let b = w.map_values(|e: (Seq<char>, Seq<Posting>)| e.0);
    assert forall|i: int, j: int| 0 <= i < j < a.len() implies seq_lt(#[trigger] a[i], #[trigger] a[j]) by {
        assert(seq_lt(v[i].0, v[j].0));
    }
    assert forall|i: int, j: int| 0 <= i < j < b.len() implies seq_lt(#[trigger] b[i], #[trigger] b[j]) by {
        assert(seq_lt(w[i].0, w[j].0));
    }
    assert forall|n: Seq<char>| a.contains(n) <==> b.contains(n) by {
        if a.contains(n) {
            let i = choose|i: int| 0 <= i < a.len() && a[i] == n;
            assert(v[i].0 == n);
            assert(postings_to(x.postings@, n).len() > 0);
            let k = choose|k: int| 0 <= k < w.len() && (#[trigger] w[k]).0 == n;
            assert(b[k] == n);
        }
        if b.contains(n) {
            let i = choose|i: int| 0 <= i < b.len() && b[i] == n;
            assert(w[i].0 == n);
            assert(postings_to(x.postings@, n).len() > 0);
            let k = choose|k: int| 0 <= k < v.len() && (#[trigger] v[k]).0 == n;
            assert(a[k] == n);
        }
    }
    lemma_sorted_names_unique(a, b);
    assert forall|i: int| 0 <= i < v.len() implies v[i] == w[i] by {
        assert(a[i] == b[i]);
        assert(v[i].1 == postings_to(x.postings@, v[i].0));
        assert(w[i].1 == postings_to(x.postings@, w[i].0));
    }
    assert(v =~= w);
}

/// An account with postings in `ps` is the account of one of them.
proof fn lemma_postings_to_named(ps: Seq<Posting>, name: Seq<char>)
    requires
        postings_to(ps, name).len() > 0,
    ensures
        exists|k: int| 0 <= k < ps.len() && (#[trigger] ps[k]).acc_name@ == name,
    decreases ps.len(),
{
    if ps.last().acc_name@ == name {
        assert(ps[ps.len() - 1].acc_name@ == name);
    } else {
        lemma_postings_to_named(ps.drop_last(), name);
        let k = choose|k: int| 0 <= k < ps.drop_last().len() && (#[trigger] ps.drop_last()[k]).acc_name@ == name;
        assert(ps[k] == ps.drop_last()[k]);
    }
}

/// The entries by value.
pub open spec fn entry_views(v: Seq<(AccName, Amount, Amount)>) -> Seq<EntryView> {
    v.map_values(|e: (AccName, Amount, Amount)| (e.0@, e.1@, e.2@))
}

proof fn lemma_posting_entries_stop(ps: Seq<Posting>, val: Valuation, n: int)
    requires
        0 <= n <= ps.len(),
        posting_entries(ps.take(n), val) is None,
    ensures
        posting_entries(ps, val) is None,
    decreases ps.len(),
{
    if n < ps.len() {
        assert(ps.drop_last().take(n) =~= ps.take(n));
        lemma_posting_entries_stop(ps.drop_last(), val, n);
    } else {
        assert(ps.take(n) =~= ps);
    }
}

proof fn lemma_flat_entries_stop(s: Seq<Keyed<Map<Date, Seq<LotView>>>>, val: Valuation, n: int)
    requires
        0 <= n <= s.len(),
        flat_entries(s.take(n), val) is None,
    ensures
        flat_entries(s, val) is None,
    decreases s.len(),
{
    if n < s.len() {
        assert(s.drop_last().take(n) =~= s.take(n));
        lemma_flat_entries_stop(s.drop_last(), val, n);
    } else {
        assert(s.take(n) =~= s);
    }
}

proof fn lemma_rows_stop(es: Seq<EntryView>, av: Seq<Entry>, aq: Seq<Entry>, n: int)
    requires
        0 <= n <= es.len(),
        rows_of(es.take(n), av, aq) is None,
    ensures
        rows_of(es, av, aq) is None,
    decreases es.len(),
{
    if n < es.len() {
        assert(es.drop_last().take(n) =~= es.take(n));
        lemma_rows_stop(es.drop_last(), av, aq, n);
    } else {
        assert(es.take(n) =~= es);
    }
}

proof fn lemma_reg_stop(xs: Seq<Xact>, val: Valuation, db: Map<PriceKey, Quantity>, depth: nat, n: int)
    requires
        0 <= n <= xs.len(),
        reg_run(xs.take(n), val, db, depth) is None,
    ensures
        reg_run(xs, val, db, depth) is None,
    decreases xs.len(),
{
    if n < xs.len() {
        assert(xs.drop_last().take(n) =~= xs.take(n));
        lemma_reg_stop(xs.drop_last(), val, db, depth, n);
    } else {
        assert(xs.take(n) =~= xs);
    }
}

/// The entry of one posting (see `posting_entry`).
fn posting_entry_of(p: &Posting, val: Valuation) -> (r: Option<(AccName, Amount, Amount)>)
    ensures
        r is Some <==> posting_entry(*p, val) is Some,
        r matches Some(e) ==> posting_entry(*p, val) == Some((e.0@, e.1@, e.2@)),
{
    let qty = p.quantity.duplicate().to_amount();
    match val {
        Valuation::Quantity => Some((p.acc_name.duplicate(), p.quantity.duplicate().to_amount(), qty)),
        _ => match p.lot_uprice.price.q.checked_mul(&p.quantity.q) {
            Some(m) => {
                let mut bv = p.lot_uprice.price.duplicate();
                bv.q = m;
                Some((p.acc_name.duplicate(), bv.to_amount(), qty))
            },
            None => None,
        },
    }
}

/// The entry of one flat account (see `flat_entry`).
fn flat_entry_of(acc: &FlatAccountView<TAmount<Holdings>>, val: Valuation) -> (r: Option<(AccName, Amount, Amount)>)
    ensures
        r is Some <==> flat_entry(acc.tree(), val) is Some,
        r matches Some(e) ==> flat_entry(acc.tree(), val) == Some((e.0@, e.1@, e.2@)),
{
    let ghost m = acc.tree().bal;
    let b = acc.balance();
    let bs = b.baskets();
    let ghost ps = b.pairs();
    proof {
        lemma_ts_map(ps);
    }
    if bs.len() == 0 {
        proof {
            assert forall|d: Date| !is_first(m, d) by {
                if m.dom().contains(d) {
                    let i = choose|i: int| 0 <= i < ps.len() && ps[i].0 == d;
                    assert(ps.len() == bs@.len());
                }
            }
        }
        return None;
    }
    let h = &bs[0].1;
    proof {
        assert(ps[0] == (bs@[0].0, bs@[0].1@));
        let d0 = ps[0].0;
        assert forall|e: Date| #[trigger] m.dom().contains(e) implies d0.before_eq(e) by {
            let i = choose|i: int| 0 <= i < ps.len() && ps[i].0 == e;
            Date::lemma_order(d0, e, e);
            if i > 0 {
                assert(date_lt(ps[0].0, ps[i].0));
            }
        }
        assert(is_first(m, d0));
        let c = choose|d: Date| is_first(m, d);
        assert(is_first(m, c));
        Date::lemma_order(c, d0, d0);
        assert(c == d0);
        assert(m[d0] == ps[0].1);
    }
    let v = match h.valued_in_checked(val) {
        Some(v) => v,
        None => {
            return None;
        },
    };
    let q = match h.valued_in_checked(Valuation::Quantity) {
        Some(q) => q,
        None => {
            return None;
        },
    };
    Some((acc.name().duplicate(), v, q))
}

/// The entries that transaction `x` contributes (see
/// `xact_entries_spec`).
fn xact_entries(x: &Xact, val: Valuation, price_db: &PriceDB, depth: usize) -> (r: Option<Vec<(AccName, Amount, Amount)>>)
    requires
        xact_reportable(*x, val, depth as nat),
    ensures
        r is Some <==> xact_entries_spec(*x, val, price_db@, depth as nat) is Some,
        r matches Some(v) ==> xact_entries_spec(*x, val, price_db@, depth as nat) == Some(entry_views(v@)),
{
    let mut out: Vec<(AccName, Amount, Amount)> = Vec::new();
    if depth == 0 {
        let ghost ps = x.postings@;
        let mut i: usize = 0;
        assert(ps.take(0) =~= Seq::<Posting>::empty());
        assert(entry_views(out@) =~= Seq::<EntryView>::empty());
        while i < x.postings.len()
            invariant
                i <= ps.len(),
                ps == x.postings@,
                depth == 0,
                posting_entries(ps.take(i as int), val) == Some(entry_views(out@)),
            decreases ps.len() - i,
        {
            assert(ps.take(i + 1).drop_last() =~= ps.take(i as int));
            assert(ps.take(i + 1).last() == ps[i as int]);
            match posting_entry_of(&x.postings[i], val) {
                Some(e) => {
                    let ghost before = out@;
                    out.push(e);
                    assert(entry_views(out@) =~= entry_views(before).push((e.0@, e.1@, e.2@)));
                },
                None => {
                    proof {
                        lemma_posting_entries_stop(ps, val, i + 1);
                    }
                    return None;
                },
            }
            i = i + 1;
        }
        assert(ps.take(i as int) =~= ps);
        return Some(out);
    }
    let bal = Balance::from_xact(x);
    proof {
        lemma_xact_accounts(bal@, *x);
        assert forall|i: int| 0 <= i < bal@.len() implies (#[trigger] bal@[i]).0.len() > 0 by {
            let name = bal@[i].0;
            assert(postings_to(x.postings@, name).len() > 0);
            lemma_postings_to_named(x.postings@, name);
            let k = choose|k: int| 0 <= k < x.postings@.len() && (#[trigger] x.postings@[k]).acc_name@ == name;
            assert(x.postings@[k].acc_name@.len() > 0);
        }
    }
    let bv = match bal.to_balance_view_as_of(x.date.txdate, price_db) {
        Some(b) => b,
        None => {
            return None;
        },
    };
    let lim = bv.limit_accounts_depth(depth);
    let flat = match lim.to_flat() {
        Some(f) => f,
        None => {
            return None;
        },
    };
    let ghost fv = flat@;
    assert(xact_entries_spec(*x, val, price_db@, depth as nat) == flat_entries(fv, val));
    let accs = flat.into_accounts();
    let mut i: usize = 0;
    assert(fv.take(0) =~= Seq::<Keyed<Map<Date, Seq<LotView>>>>::empty());
    assert(entry_views(out@) =~= Seq::<EntryView>::empty());
    while i < accs.len()
        invariant
            i <= accs@.len(),
            fv == accs@.map_values(|p: (AccName, FlatAccountView<TAmount<Holdings>>)| (p.0@, p.1.tree())),
            xact_entries_spec(*x, val, price_db@, depth as nat) == flat_entries(fv, val),
            flat_entries(fv.take(i as int), val) == Some(entry_views(out@)),
        decreases accs@.len() - i,
    {
        assert(fv.take(i + 1).drop_last() =~= fv.take(i as int));
        assert(fv.take(i + 1).last() == fv[i as int]);
        assert(fv[i as int].1 == accs@[i as int].1.tree());
        match flat_entry_of(&accs[i].1, val) {
            Some(e) => {
                let ghost before = out@;
                out.push(e);
                assert(entry_views(out@) =~= entry_views(before).push((e.0@, e.1@, e.2@)));
            },
            None => {
                proof {
                    lemma_flat_entries_stop(fv, val, i + 1);
                }
                return None;
            },
        }
        i = i + 1;
    }
    assert(fv.take(i as int) =~= fv);
    Some(out)
}

/// The rows of the entries `es`, the running totals starting at `av`
/// (values) and `aq` (quantities); also the totals at the end (see
/// `rows_of`).
fn record_entries(es: &Vec<(AccName, Amount, Amount)>, av: Amount, aq: Amount) -> (r: Option<
    (Vec<RegisterRow>, Amount, Amount),
>)
    ensures
        r is Some <==> rows_of(entry_views(es@), av@, aq@) is Some,
        r matches Some(t) ==> rows_of(entry_views(es@), av@, aq@) == Some(
            (t.0@.map_values(|w: RegisterRow| row_view(w)), t.1@, t.2@),
        ),
{
    let ghost ev = entry_views(es@);
    let ghost v0 = av@;
    let ghost q0 = aq@;
    let mut rows: Vec<RegisterRow> = Vec::new();
    let mut acc_v = av;
    let mut acc_q = aq;
    let mut i: usize = 0;
    assert(ev.take(0) =~= Seq::<EntryView>::empty());
    assert(rows@.map_values(|w: RegisterRow| row_view(w)) =~= Seq::<RowView>::empty());
    while i < es.len()
        invariant
            i <= es@.len(),
            ev == entry_views(es@),
            v0 == av@,
            q0 == aq@,
            rows_of(ev.take(i as int), v0, q0) == Some(
                (rows@.map_values(|w: RegisterRow| row_view(w)), acc_v@, acc_q@),
            ),
        decreases es@.len() - i,
    {
        assert(ev.take(i + 1).drop_last() =~= ev.take(i as int));
        assert(ev.take(i + 1).last() == ev[i as int]);
        assert(ev[i as int] == (es@[i as int].0@, es@[i as int].1@, es@[i as int].2@));
        let e = &es[i];
        let nv = match acc_v.checked_apply(&e.1, false) {
            Some(a) => a,
            None => {
                proof {
                    lemma_rows_stop(ev, v0, q0, i + 1);
                }
                return None;
            },
        };
        let nq = match acc_q.checked_apply(&e.2, false) {
            Some(a) => a,
            None => {
                proof {
                    lemma_rows_stop(ev, v0, q0, i + 1);
                }
                return None;
            },
        };
        let ghost before = rows@.map_values(|w: RegisterRow| row_view(w));
        let row = RegisterRow { acc_name: e.0.duplicate(), total: e.1.duplicate(), running_total: nv.duplicate() };
        rows.push(row);
        assert(rows@.map_values(|w: RegisterRow| row_view(w)) =~= before.push((e.0@, e.1@, nv@)));
        acc_v = nv;
        acc_q = nq;
        i = i + 1;
    }
    assert(ev.take(i as int) =~= ev);
    Some((rows, acc_v, acc_q))
}

/// The register of the transactions `xacts` under valuation `vtype`
/// (see `reg_run`): one group per transaction that adds rows, in order;
/// each row with the running total of every row before it and itself.
/// With `depth == 0` a row is a posting; otherwise a row is an account
/// of the transaction, its name cut down to `depth` parts. `None` where
/// a product or a sum overflows, or a price is missing.
///
/// The market valuation, which adds rows for the change in value of
/// what is held between transactions, is not covered.
pub fn register_checked<'a>(xacts: &'a [Xact], vtype: Valuation, depth: usize, price_db: &PriceDB) -> (r: Option<
    Vec<RegisterGroup<'a>>,
>)
    requires
        !(vtype is Market),
        forall|i: int| 0 <= i < xacts@.len() ==> xact_reportable(#[trigger] xacts@[i], vtype, depth as nat),
    ensures
        r is Some <==> reg_run(xacts@, vtype, price_db@, depth as nat) is Some,
        r matches Some(gs) ==> reg_run(xacts@, vtype, price_db@, depth as nat).unwrap().0 == gs@.map_values(
            |g: RegisterGroup<'a>| group_view(g),
        ),
{
    let ghost xs = xacts@;
    let ghost db = price_db@;
    let mut groups: Vec<RegisterGroup<'a>> = Vec::new();
    let mut av = Amount::new();
    let mut aq = Amount::new();
    let mut i: usize = 0;
    assert(xs.take(0) =~= Seq::<Xact>::empty());
    assert(groups@.map_values(|g: RegisterGroup<'a>| group_view(g)) =~= Seq::<GroupView>::empty());
    assert(av@ =~= Seq::<Entry>::empty());
    assert(aq@ =~= Seq::<Entry>::empty());
    while i < xacts.len()
        invariant
            i <= xs.len(),
            xs == xacts@,
            db == price_db@,
            forall|k: int| 0 <= k < xs.len() ==> xact_reportable(#[trigger] xs[k], vtype, depth as nat),
            reg_run(xs.take(i as int), vtype, db, depth as nat) == Some(
                (groups@.map_values(|g: RegisterGroup<'a>| group_view(g)), av@, aq@),
            ),
        decreases xs.len() - i,
    {
        assert(xs.take(i + 1).drop_last() =~= xs.take(i as int));
        assert(xs.take(i + 1).last() == xs[i as int]);
        let x: &'a Xact = &xacts[i];
        let es = match xact_entries(x, vtype, price_db, depth) {
            Some(es) => es,
            None => {
                proof {
                    lemma_reg_stop(xs, vtype, db, depth as nat, i + 1);
                }
                return None;
            },
        };
        let (rows, nv, nq) = match record_entries(&es, av, aq) {
            Some(t) => t,
            None => {
                proof {
                    lemma_reg_stop(xs, vtype, db, depth as nat, i + 1);
                }
                return None;
            },
        };
        av = nv;
        aq = nq;
        if rows.len() > 0 {
            let ghost before = groups@.map_values(|g: RegisterGroup<'a>| group_view(g));
            let g = RegisterGroup { date: &x.date.txdate, payee: x.payee.as_str(), rows };
            let ghost gv = group_view(g);
            groups.push(g);
            assert(groups@.map_values(|g: RegisterGroup<'a>| group_view(g)) =~= before.push(gv));
        }
        i = i + 1;
    }
    assert(xs.take(i as int) =~= xs);
    Some(groups)
}

/// The register of the transactions `xacts` (see `register_checked`),
/// where no sum overflows and no price is missing.
pub fn register<'a>(xacts: &'a [Xact], vtype: Valuation, depth: usize, price_db: &PriceDB) -> (r: Vec<
    RegisterGroup<'a>,
>)
    requires
        !(vtype is Market),
        forall|i: int| 0 <= i < xacts@.len() ==> xact_reportable(#[trigger] xacts@[i], vtype, depth as nat),
        reg_run(xacts@, vtype, price_db@, depth as nat) is Some,
    ensures
        reg_run(xacts@, vtype, price_db@, depth as nat).unwrap().0 == r@.map_values(
            |g: RegisterGroup<'a>| group_view(g),
        ),
{
    match register_checked(xacts, vtype, depth, price_db) {
        Some(gs) => gs,
        None => Vec::new(),
    }
}

/// The date at which to revalue what is held after transaction `xact`:
/// the date of the next transaction; after the last one, `at` where
/// given, else `today` where it is later than the transaction.
pub fn revaluation_anchor(xact: &Xact, next: Option<&Xact>, at: Option<Date>, today: Date) -> (r: Option<Date>)
    ensures
        r == match next {
            Some(n) => Some(n.date.txdate),
            None => match at {
                Some(a) => Some(a),
                None => if date_lt(xact.date.txdate, today) {
                    Some(today)
                } else {
                    None
                },
            },
        },
{
    match next {
        Some(n) => Some(n.date.txdate),
        None => match at {
            Some(a) => Some(a),
            None => {
                proof {
                    Date::lemma_order(today, xact.date.txdate, today);
                }
                if today.le(&xact.date.txdate) {
                    None
                } else {
                    Some(today)
                }
            },
        },
    }
}

/// Each row's running total is the running total before it plus the
/// row's own total, starting from `av`; the value total at the end is
/// the running total of the last row.
pub proof fn law_running_totals(es: Seq<EntryView>, av: Seq<Entry>, aq: Seq<Entry>)
    requires
        rows_of(es, av, aq) is Some,
    ensures
        ({
            let (rs, v, q) = rows_of(es, av, aq).unwrap();
            &&& rs.len() == es.len()
            &&& forall|k: int| 0 <= k < rs.len() ==> (#[trigger] rs[k]).0 == es[k].0 && rs[k].1 == es[k].1
            &&& forall|k: int|
                0 <= k < rs.len() ==> amount_plus(if k == 0 { av } else { rs[k - 1].2 }, es[k].1) == Some(
                    (#[trigger] rs[k]).2,
                )
            &&& v == if rs.len() == 0 { av } else { rs.last().2 }
        }),
    decreases es.len(),
{
    if es.len() > 0 {
        law_running_totals(es.drop_last(), av, aq);
        let (rs0, v0, q0) = rows_of(es.drop_last(), av, aq).unwrap();
        let (rs, v, q) = rows_of(es, av, aq).unwrap();
        assert(rs == rs0.push((es.last().0, es.last().1, v)));
        assert forall|k: int| 0 <= k < rs.len() implies amount_plus(if k == 0 { av } else { rs[k - 1].2 }, es[k].1)
            == Some((#[trigger] rs[k]).2) by {
            if k < rs0.len() {
                assert(rs[k] == rs0[k]);
                assert(es[k] == es.drop_last()[k]);
                if k > 0 {
                    assert(rs[k - 1] == rs0[k - 1]);
                }
            }
        }
        assert forall|k: int| 0 <= k < rs.len() implies (#[trigger] rs[k]).0 == es[k].0 && rs[k].1 == es[k].1 by {
            if k < rs0.len() {
                assert(rs[k] == rs0[k]);
                assert(es[k] == es.drop_last()[k]);
            }
        }
    }
}

/// A register row of a posting (no depth limit): under the quantity
/// valuation its total is the posting's quantity; under any other
/// valuation it is the posting's book value, the quantity times its lot
/// unit price, in the commodity of that price (`None` where that product
/// overflows). The row's quantity column is always the posting's quantity.
pub proof fn law_posting_row_total(p: Posting, val: Valuation)
    ensures
        val is Quantity ==> posting_entry(p, val) == Some(
            (
                p.acc_name@,
                amount_of(p.quantity.s@, p.quantity.q),
                amount_of(p.quantity.s@, p.quantity.q),
            ),
        ),
        !(val is Quantity) ==> posting_entry(p, val) == match decimal_mul(p.lot_uprice.price.q, p.quantity.q) {
            Some(m) => Some(
                (p.acc_name@, amount_of(p.lot_uprice.price.s@, m), amount_of(p.quantity.s@, p.quantity.q)),
            ),
            None => None::<EntryView>,
        },
{
}

/// With a depth limit, the quantity column of a register row is what the
/// row's total is under the quantity valuation, whatever the valuation:
/// the rows under `val` and under the quantity valuation name the same
/// accounts, in order, and each row's quantity is the other's total.
pub proof fn law_flat_rows_quantity_column(s: Seq<Keyed<Map<Date, Seq<LotView>>>>, val: Valuation)
    requires
        flat_entries(s, val) is Some,
        flat_entries(s, Valuation::Quantity) is Some,
    ensures
        flat_entries(s, val).unwrap().len() == flat_entries(s, Valuation::Quantity).unwrap().len(),
        forall|i: int|
            0 <= i < flat_entries(s, val).unwrap().len() ==> (#[trigger] flat_entries(s, val).unwrap()[i]).0
                == flat_entries(s, Valuation::Quantity).unwrap()[i].0 && flat_entries(s, val).unwrap()[i].2
                == flat_entries(s, Valuation::Quantity).unwrap()[i].1,
    decreases s.len(),
{
    if s.len() > 0 {
        law_flat_rows_quantity_column(s.drop_last(), val);
        let a0 = flat_entries(s.drop_last(), val).unwrap();
        let b0 = flat_entries(s.drop_last(), Valuation::Quantity).unwrap();
        let a = flat_entries(s, val).unwrap();
        let b = flat_entries(s, Valuation::Quantity).unwrap();
        assert forall|i: int| 0 <= i < a.len() implies (#[trigger] a[i]).0 == b[i].0 && a[i].2 == b[i].1 by {
            if i < a0.len() {
                assert(a[i] == a0[i]);
                assert(b[i] == b0[i]);
            }
        }
    }
}

/// Without a depth limit the basis, market and historical valuations
/// give a posting the same register row: its book value.
pub proof fn law_posting_rows_agree(ps: Seq<Posting>, val: Valuation, val2: Valuation)
    requires
        !(val is Quantity),
        !(val2 is Quantity),
    ensures
        posting_entries(ps, val) == posting_entries(ps, val2),
    decreases ps.len(),
{
    if ps.len() > 0 {
        law_posting_rows_agree(ps.drop_last(), val, val2);
    }
}

/// Without a depth limit and for postings without a lot date, the
/// register under the historical valuation is the register under the
/// basis valuation (each row the book value of its posting), group by
/// group and total by total.
pub proof fn law_register_historical_is_book(xs: Seq<Xact>, db: Map<PriceKey, Quantity>)
    requires
        forall|i: int| 0 <= i < xs.len() ==> xact_reportable(#[trigger] xs[i], Valuation::Historical, 0),
    ensures
        reg_run(xs, Valuation::Historical, db, 0) == reg_run(xs, Valuation::Basis, db, 0),
    decreases xs.len(),
{
    if xs.len() > 0 {
        law_register_historical_is_book(xs.drop_last(), db);
        law_posting_rows_agree(xs.last().postings@, Valuation::Historical, Valuation::Basis);
    }
}

/// No group of the register is empty: a transaction that adds no row
/// adds no group.
pub proof fn law_register_groups_nonempty(xs: Seq<Xact>, val: Valuation, db: Map<PriceKey, Quantity>, depth: nat)
    requires
        reg_run(xs, val, db, depth) is Some,
    ensures
        forall|i: int|
            0 <= i < reg_run(xs, val, db, depth).unwrap().0.len() ==> (#[trigger] reg_run(
                xs,
                val,
                db,
                depth,
            ).unwrap().0[i]).2.len() > 0,
    decreases xs.len(),
{
    if xs.len() > 0 {
        law_register_groups_nonempty(xs.drop_last(), val, db, depth);
        let gs0 = reg_run(xs.drop_last(), val, db, depth).unwrap().0;
        let gs = reg_run(xs, val, db, depth).unwrap().0;
        assert forall|i: int| 0 <= i < gs.len() implies (#[trigger] gs[i]).2.len() > 0 by {
            if i < gs0.len() {
                assert(gs0[i].2.len() > 0);
            }
        }
    }
}

} // verus!
