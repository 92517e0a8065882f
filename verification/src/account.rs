//! Accounts: the postings made to one account, and their balance as of a
//! date; a balance: accounts in name order.

use vstd::prelude::*;

use crate::accview::{chain, pop_parts, build_hier_account, HierAccountView};
use crate::amount::amount_of;
use crate::balview::{accounts_of, all_named, bv_add, bv_add_all, flat_into, hier_into, BalanceView, Keyed};
use crate::accview::FlatAccountView;
use crate::catalog::seq_lt;
use crate::date::Date;
use crate::holdings::{hold_sum, Holdings, Lot, LotView};
use crate::journal::AccName;
use crate::ledger::{derefs, groups_of, names_distinct, postings_to, Ledger, Query};
use crate::misc::to_datetime;
use crate::ntypes::Arithmetic;
use crate::prices::{price_as_of_spec, PriceDB, PriceKey};
use crate::quantity::Quantity;
use crate::tamount::TAmount;
use crate::xact::{Posting, Xact};

verus! {

/// The lot posting `p` makes in a balance as of `date`: its quantity, at
/// the market price of its commodity as of `date`, the historical price as
/// of the posting's own date, and its lot price as book price. `None`
/// where the price database has no such price.
pub open spec fn lot_of(p: Posting, date: Date, db: Map<PriceKey, Quantity>) -> Option<LotView> {
    match (
        price_as_of_spec(db, p.quantity.s@, date.midnight_of()),
        price_as_of_spec(db, p.quantity.s@, p.date.midnight_of()),
    ) {
        (Some(m), Some(h)) => Some(
            (
                p.quantity@,
                amount_of(m.s@, m.q),
                amount_of(h.s@, h.q),
                amount_of(p.lot_uprice.price.s@, p.lot_uprice.price.q),
            ),
        ),
        _ => None,
    }
}

/// The lots of the postings of `ps` dated no later than `date`, in order.
pub open spec fn lots_as_of(ps: Seq<Posting>, date: Date, db: Map<PriceKey, Quantity>) -> Option<Seq<LotView>>
    decreases ps.len(),
{
    if ps.len() == 0 {
        Some(Seq::empty())
    } else {
        match lots_as_of(ps.drop_last(), date, db) {
            Some(ls) => if ps.last().date.before_eq(date) {
                match lot_of(ps.last(), date, db) {
                    Some(l) => Some(ls.push(l)),
                    None => None,
                }
            } else {
                Some(ls)
            },
            None => None,
        }
    }
}

/// The balance of postings `ps` as of `date`: their lots added up into
/// holdings. `None` where a price is missing or a sum overflows.
pub open spec fn account_balance(ps: Seq<Posting>, date: Date, db: Map<PriceKey, Quantity>) -> Option<Seq<LotView>> {
    match lots_as_of(ps, date, db) {
        Some(ls) => hold_sum(Seq::empty(), ls),
        None => None,
    }
}

/// Lot `l` comes from posting `p` in a balance as of `date`: the posting
/// is dated no later than `date`, the lot has its quantity, the price of
/// its commodity as of the posting's date as historical unit price, and
/// its lot price as book unit price.
pub open spec fn lot_from(l: LotView, p: Posting, date: Date, db: Map<PriceKey, Quantity>) -> bool {
    &&& p.date.before_eq(date)
    &&& p.quantity@ == l.0
    &&& match price_as_of_spec(db, l.0.0, p.date.midnight_of()) {
        Some(h) => l.2 == amount_of(h.s@, h.q),
        None => false,
    }
    &&& l.3 == amount_of(p.lot_uprice.price.s@, p.lot_uprice.price.q)
}

/// The market unit price of lot `l` is the price of its commodity as of
/// `date`.
pub open spec fn market_as_of(l: LotView, date: Date, db: Map<PriceKey, Quantity>) -> bool {
    match price_as_of_spec(db, l.0.0, date.midnight_of()) {
        Some(m) => l.1 == amount_of(m.s@, m.q),
        None => false,
    }
}

/// In a balance as of `date`, every lot comes from one of the postings,
/// dated no later than `date` (see `lot_from`: its historical unit price
/// is the price as of the posting's date), and its market unit price is
/// the price of its commodity as of `date`, the report date, not the
/// posting's.
pub proof fn law_lots_priced_as_of(ps: Seq<Posting>, date: Date, db: Map<PriceKey, Quantity>)
    requires
        lots_as_of(ps, date, db) is Some,
    ensures
        forall|i: int|
            0 <= i < lots_as_of(ps, date, db).unwrap().len() ==> market_as_of(
                #[trigger] lots_as_of(ps, date, db).unwrap()[i],
                date,
                db,
            ) && exists|j: int| 0 <= j < ps.len() && lot_from(lots_as_of(ps, date, db).unwrap()[i], #[trigger] ps[j], date, db),
    decreases ps.len(),
{
    if ps.len() > 0 {
        let init = ps.drop_last();
        law_lots_priced_as_of(init, date, db);
        let ls0 = lots_as_of(init, date, db).unwrap();
        let ls = lots_as_of(ps, date, db).unwrap();
        assert forall|i: int| 0 <= i < ls.len() implies market_as_of(#[trigger] ls[i], date, db) && exists|j: int|
            0 <= j < ps.len() && lot_from(ls[i], #[trigger] ps[j], date, db) by {
            if i < ls0.len() {
                assert(ls[i] == ls0[i]);
                assert(market_as_of(ls0[i], date, db));
                let j = choose|j: int| 0 <= j < init.len() && lot_from(ls0[i], #[trigger] init[j], date, db);
                assert(ps[j] == init[j]);
            } else {
                let j = ps.len() - 1;
                assert(ps[j] == ps.last());
            }
        }
    }
}

/// The postings dated no later than `date`.
pub open spec fn dated_by(ps: Seq<Posting>, date: Date) -> Seq<Posting> {
    ps.filter(|p: Posting| p.date.before_eq(date))
}

/// A balance as of `date` has one lot for each posting dated no later
/// than `date`, in order, and each such posting gives its lot (see
/// `lot_from` and `market_as_of`).
pub proof fn law_lots_one_per_posting(ps: Seq<Posting>, date: Date, db: Map<PriceKey, Quantity>)
    requires
        lots_as_of(ps, date, db) is Some,
    ensures
        lots_as_of(ps, date, db).unwrap().len() == dated_by(ps, date).len(),
        forall|i: int|
            0 <= i < dated_by(ps, date).len() ==> lot_from(
                #[trigger] lots_as_of(ps, date, db).unwrap()[i],
                dated_by(ps, date)[i],
                date,
                db,
            ) && market_as_of(lots_as_of(ps, date, db).unwrap()[i], date, db),
    decreases ps.len(),
{
    reveal(Seq::filter);
    if ps.len() > 0 {
        let init = ps.drop_last();
        law_lots_one_per_posting(init, date, db);
        assert(ps.drop_last() == init);
        let ls0 = lots_as_of(init, date, db).unwrap();
        let ls = lots_as_of(ps, date, db).unwrap();
        let f = |p: Posting| p.date.before_eq(date);
        assert(dated_by(ps, date) == if f(ps.last()) {
            dated_by(init, date).push(ps.last())
        } else {
            dated_by(init, date)
        });
        assert forall|i: int| 0 <= i < dated_by(ps, date).len() implies lot_from(
            #[trigger] ls[i],
            dated_by(ps, date)[i],
            date,
            db,
        ) && market_as_of(ls[i], date, db) by {
            if i < ls0.len() {
                assert(ls[i] == ls0[i]);
                assert(dated_by(ps, date)[i] == dated_by(init, date)[i]);
            }
        }
    }
}

/// A lot as of `date` takes its market unit price from the price as of
/// `date` whatever the date of its posting: two postings that differ only
/// in their dates give lots with the same market unit price.
pub proof fn law_market_price_ignores_posting_date(p: Posting, p2: Posting, date: Date, db: Map<PriceKey, Quantity>)
    requires
        p.quantity == p2.quantity,
        lot_of(p, date, db) is Some,
        lot_of(p2, date, db) is Some,
    ensures
        lot_of(p, date, db).unwrap().1 == lot_of(p2, date, db).unwrap().1,
        lot_of(p, date, db).unwrap().0 == lot_of(p2, date, db).unwrap().0,
{
}

proof fn lemma_lots_stops(ps: Seq<Posting>, date: Date, db: Map<PriceKey, Quantity>, n: int)
    requires
        0 <= n <= ps.len(),
        lots_as_of(ps.take(n), date, db) is None,
    ensures
        lots_as_of(ps, date, db) is None,
    decreases ps.len(),
{
    if n < ps.len() {
        let init = ps.drop_last();
        assert(init.take(n) =~= ps.take(n));
        lemma_lots_stops(init, date, db, n);
    } else {
        assert(ps.take(n) =~= ps);
    }
}

/// The postings made to one account.
pub struct Account<'a> {
    name: AccName,
    postings: Vec<&'a Posting>,
}

impl<'a> View for Account<'a> {
    type V = (Seq<char>, Seq<Posting>);

    closed spec fn view(&self) -> (Seq<char>, Seq<Posting>) {
        (self.name@, derefs(self.postings@))
    }
}

impl<'a> Account<'a> {
    /// The account `name` with the postings `ps`.
    pub fn from_postings(name: AccName, ps: Vec<&'a Posting>) -> (r: Account<'a>)
        ensures
            r@ == (name@, derefs(ps@)),
    {
        Account { name, postings: ps }
    }

    /// The name of the account.
    pub fn name(&self) -> (r: &AccName)
        ensures
            r@ == self@.0,
    {
        &self.name
    }

    /// The postings of the account.
    pub fn postings(&self) -> (r: &Vec<&'a Posting>)
        ensures
            derefs(r@) == self@.1,
    {
        &self.postings
    }

    /// The balance of the account as of `date` (see `account_balance`);
    /// `None` where a price is missing or a sum overflows.
    pub fn balance_as_of_checked(&self, date: Date, price_db: &PriceDB) -> (r: Option<Holdings>)
        ensures
            r is Some <==> account_balance(self@.1, date, price_db@) is Some,
            r matches Some(h) ==> Some(h@) == account_balance(self@.1, date, price_db@),
    {
        let ghost ps = self@.1;
        let mut lots: Vec<Lot> = Vec::new();
        let mut i: usize = 0;
        let at = to_datetime(date);
        assert(ps.take(0) =~= Seq::<Posting>::empty());
        assert(lots@.map_values(|l: Lot| l@) =~= Seq::<LotView>::empty());
        while i < self.postings.len()
            invariant
                i <= self.postings@.len(),
                ps == self@.1,
                ps == derefs(self.postings@),
                ps.len() == self.postings@.len(),
                at == date.midnight_of(),
                lots_as_of(ps.take(i as int), date, price_db@) == Some(lots@.map_values(|l: Lot| l@)),
            decreases self.postings@.len() - i,
        {
            let p: &Posting = self.postings[i];
            assert(ps[i as int] == *p);
            assert(ps.take(i + 1).drop_last() =~= ps.take(i as int));
            assert(ps.take(i + 1).last() == *p);
            if p.date.le(&date) {
                let m = match price_db.price_as_of(p.quantity.s.duplicate(), at) {
                    Some(m) => m,
                    None => {
                        proof {
                            assert(lots_as_of(ps.take(i + 1), date, price_db@) is None);
                            lemma_lots_stops(ps, date, price_db@, i + 1);
                        }
                        return None;
                    },
                };
                let h = match price_db.price_as_of(p.quantity.s.duplicate(), to_datetime(p.date)) {
                    Some(h) => h,
                    None => {
                        proof {
                            assert(lots_as_of(ps.take(i + 1), date, price_db@) is None);
                            lemma_lots_stops(ps, date, price_db@, i + 1);
                        }
                        return None;
                    },
                };
                let lot = Lot {
                    qty: p.quantity.duplicate(),
                    m_uprice: m.to_amount(),
                    h_uprice: h.to_amount(),
                    b_uprice: p.lot_uprice.price.duplicate().to_amount(),
                };
                let ghost before = lots@.map_values(|l: Lot| l@);
                let ghost lv = lot@;
                lots.push(lot);
                assert(lots@.map_values(|l: Lot| l@) =~= before.push(lv));
            }
            i = i + 1;
        }
        assert(ps.take(i as int) =~= ps);
        Holdings::sum_checked(lots)
    }

    /// The balance of the account as of `date`: the lots of its postings
    /// dated no later than `date` added up (see `account_balance`).
    pub fn balance_as_of(&self, date: Date, price_db: &PriceDB) -> (r: Holdings)
        requires
            account_balance(self@.1, date, price_db@) is Some,
        ensures
            Some(r@) == account_balance(self@.1, date, price_db@),
    {
        self.balance_as_of_checked(date, price_db).unwrap()
    }

    /// The balance of the account with all its postings: its balance as
    /// of the last day there is.
    pub fn balance(&self, price_db: &PriceDB) -> (r: Holdings)
        requires
            account_balance(self@.1, Date::last_spec(), price_db@) is Some,
        ensures
            Some(r@) == account_balance(self@.1, Date::last_spec(), price_db@),
    {
        self.balance_as_of(Date::last(), price_db)
    }

    /// The account as a hierarchy of accounts, one per part of its name,
    /// each with the balance as of `date` at that date (see `chain`);
    /// `None` where a price is missing or a sum overflows.
    pub fn to_hier_view_as_of(&self, date: Date, price_db: &PriceDB) -> (r: Option<HierAccountView<TAmount<Holdings>>>)
        requires
            self@.0.len() > 0,
        ensures
            r is Some <==> account_balance(self@.1, date, price_db@) is Some,
            r matches Some(h) ==> h@ == chain(
                pop_parts(self@.0),
                Map::<Date, Seq<LotView>>::empty().insert(date, account_balance(self@.1, date, price_db@).unwrap()),
            ),
    {
        let bal = match self.balance_as_of_checked(date, price_db) {
            Some(b) => b,
            None => return None,
        };
        let t = TAmount::single(date, bal);
        Some(build_hier_account(self.name.duplicate(), t).unwrap())
    }

    /// The account as a hierarchy of accounts, one per part of its name,
    /// with its balance with all its postings, at the last day there is
    /// (see `to_hier_view_as_of`).
    pub fn to_hier_view(&self, price_db: &PriceDB) -> (r: Option<HierAccountView<TAmount<Holdings>>>)
        requires
            self@.0.len() > 0,
        ensures
            r is Some <==> account_balance(self@.1, Date::last_spec(), price_db@) is Some,
            r matches Some(h) ==> h@ == chain(
                pop_parts(self@.0),
                Map::<Date, Seq<LotView>>::empty().insert(
                    Date::last_spec(),
                    account_balance(self@.1, Date::last_spec(), price_db@).unwrap(),
                ),
            ),
    {
        self.to_hier_view_as_of(Date::last(), price_db)
    }
}

/// The names strictly increase.
pub open spec fn names_sorted_v(v: Seq<(Seq<char>, Seq<Posting>)>) -> bool {
    forall|i: int, j: int| 0 <= i < j < v.len() ==> seq_lt(#[trigger] v[i].0, #[trigger] v[j].0)
}

/// The balances of the accounts of `v` as of `date` added up, from empty
/// holdings; `None` where a price is missing or a sum overflows.
pub open spec fn total_balance(v: Seq<(Seq<char>, Seq<Posting>)>, date: Date, db: Map<PriceKey, Quantity>) -> Option<
    Seq<LotView>,
>
    decreases v.len(),
{
    if v.len() == 0 {
        Some(Seq::empty())
    } else {
        match (total_balance(v.drop_last(), date, db), account_balance(v.last().1, date, db)) {
            (Some(t), Some(b)) => Holdings::merge_spec(t, b, false),
            _ => None,
        }
    }
}

/// The balance view of the accounts of `v` as of `date`: for each, in
/// order, the hierarchy of its name with its balance at `date` (see
/// `chain`), added to the view; `None` where a price is missing or a sum
/// overflows.
pub open spec fn view_as_of(v: Seq<(Seq<char>, Seq<Posting>)>, date: Date, db: Map<PriceKey, Quantity>) -> Option<
    Seq<Keyed<Map<Date, Seq<LotView>>>>,
>
    decreases v.len(),
{
    if v.len() == 0 {
        Some(Seq::empty())
    } else {
        match (view_as_of(v.drop_last(), date, db), account_balance(v.last().1, date, db)) {
            (Some(t), Some(b)) => bv_add::<HierAccountView<TAmount<Holdings>>>(
                t,
                chain(pop_parts(v.last().0), Map::<Date, Seq<LotView>>::empty().insert(date, b)),
            ),
            _ => None,
        }
    }
}

/// The accounts by value.
pub open spec fn acct_views<'a>(v: Seq<Account<'a>>) -> Seq<(Seq<char>, Seq<Posting>)> {
    v.map_values(|a: Account<'a>| a@)
}

/// Accounts in name order.
pub struct Balance<'a> {
    accnts: Vec<Account<'a>>,
}

impl<'a> View for Balance<'a> {
    type V = Seq<(Seq<char>, Seq<Posting>)>;

    closed spec fn view(&self) -> Seq<(Seq<char>, Seq<Posting>)> {
        self.accnts@.map_values(|a: Account<'a>| a@)
    }
}

impl<'a> Balance<'a> {
    #[verifier::type_invariant]
    closed spec fn inv(&self) -> bool {
        names_sorted_v(self@)
    }

    /// No account.
    pub fn new() -> (r: Balance<'a>)
        ensures
            r@ == Seq::<(Seq<char>, Seq<Posting>)>::empty(),
    {
        let r = Balance { accnts: Vec::new() };
        assert(r@ =~= Seq::<(Seq<char>, Seq<Posting>)>::empty());
        r
    }

    /// The accounts of the groups `groups` whose names the query matches,
    /// in name order.
    fn from_groups(groups: &Vec<(AccName, Vec<&'a Posting>)>, qry: &Query) -> (r: Balance<'a>)
        requires
            names_distinct(groups@.map_values(|e: (AccName, Vec<&'a Posting>)| (e.0@, derefs(e.1@)))),
        ensures
            forall|e: (Seq<char>, Seq<Posting>)| #[trigger] r@.contains(e) <==> (groups@.map_values(
                |e: (AccName, Vec<&'a Posting>)| (e.0@, derefs(e.1@)),
            ).contains(e) && qry.matches_spec(e.0)),
    {
        let ghost g = groups@.map_values(|e: (AccName, Vec<&'a Posting>)| (e.0@, derefs(e.1@)));
        let mut out: Vec<Account<'a>> = Vec::new();
        let mut i: usize = 0;
        assert(acct_views(out@) =~= Seq::<(Seq<char>, Seq<Posting>)>::empty());
        while i < groups.len()
            invariant
                i <= groups@.len(),
                g == groups@.map_values(|e: (AccName, Vec<&'a Posting>)| (e.0@, derefs(e.1@))),
                g.len() == groups@.len(),
                names_distinct(g),
                names_sorted_v(acct_views(out@)),
                forall|e: (Seq<char>, Seq<Posting>)| #[trigger] acct_views(out@).contains(e) <==> (
                    g.take(i as int).contains(e) && qry.matches_spec(e.0)),
            decreases groups@.len() - i,
        {
            let ghost ov = acct_views(out@);
            assert(g[i as int] == (groups@[i as int].0@, derefs(groups@[i as int].1@)));
            assert(g.take(i + 1) =~= g.take(i as int).push(g[i as int]));
            let name = &groups[i].0;
            if qry.is_match(name.as_str()) {
                let mut ps: Vec<&'a Posting> = Vec::new();
                let src = &groups[i].1;
                let mut k: usize = 0;
                while k < src.len()
                    invariant
                        k <= src@.len(),
                        ps@ == src@.take(k as int),
                    decreases src@.len() - k,
                {
                    ps.push(src[k]);
                    assert(ps@ =~= src@.take(k + 1));
                    k = k + 1;
                }
                assert(ps@ =~= src@);
                let acc = Account::from_postings(name.duplicate(), ps);
                let ghost av = acc@;
                assert(av == g[i as int]);
                // where it goes
                let mut j: usize = 0;
                while j < out.len() && out[j].name.lt(name)
                    invariant
                        j <= out@.len(),
                        ov == acct_views(out@),
                        ov.len() == out@.len(),
                        av.0 == name@,
                        forall|m: int| 0 <= m < j ==> seq_lt(#[trigger] ov[m].0, av.0),
                    decreases out@.len() - j,
                {
                    assert(ov[j as int] == out@[j as int]@);
                    assert(ov[j as int].0 == out@[j as int].name@);
                    j = j + 1;
                }
                proof {
                    // no account has this name yet
                    assert forall|m: int| 0 <= m < ov.len() implies ov[m].0 != av.0 by {
                        if ov[m].0 == av.0 {
                            assert(ov.contains(ov[m]));
                            assert(g.take(i as int).contains(ov[m]));
                            let g0 = g.take(i as int);
                            let t = choose|t: int| 0 <= t < g0.len() && g0[t] == ov[m];
                            assert(g[t] == g.take(i as int)[t]);
                            assert(g[t].0 != g[i as int].0);
                        }
                    }
                    if j < ov.len() {
                        assert(ov[j as int] == out@[j as int]@);
                        crate::catalog::lemma_seq_lt(ov[j as int].0, av.0, av.0);
                    }
                }
                out.insert(j, acc);
                proof {
                    let nv = acct_views(out@);
                    assert(nv =~= ov.insert(j as int, av));
                    assert forall|a: int, b: int| 0 <= a < b < nv.len() implies seq_lt(#[trigger] nv[a].0, #[trigger] nv[b].0) by {
                        if b < j {
                            assert(seq_lt(ov[a].0, ov[b].0));
                        } else if a < j && b == j {
                        } else if a < j {
                            assert(seq_lt(ov[a].0, av.0));
                            if b - 1 > j {
                                assert(seq_lt(ov[j as int].0, ov[b - 1].0));
                                crate::catalog::lemma_seq_lt(av.0, ov[j as int].0, ov[b - 1].0);
                            }
                            crate::catalog::lemma_seq_lt(ov[a].0, av.0, ov[b - 1].0);
                        } else if a == j {
                            if b - 1 > j {
                                assert(seq_lt(ov[j as int].0, ov[b - 1].0));
                                crate::catalog::lemma_seq_lt(av.0, ov[j as int].0, ov[b - 1].0);
                            }
                        } else {
                            assert(seq_lt(ov[a - 1].0, ov[b - 1].0));
                        }
                    }
                    let g0 = g.take(i as int);
                    let g1 = g.take(i + 1);
                    assert(g1[i as int] == av);
                    assert(qry.matches_spec(av.0));
                    assert forall|e: (Seq<char>, Seq<Posting>)| #[trigger] nv.contains(e) <==> (g1.contains(e)
                        && qry.matches_spec(e.0)) by {
                        if nv.contains(e) {
                            let t = choose|t: int| 0 <= t < nv.len() && nv[t] == e;
                            if t == j {
                                assert(e == av);
                                assert(g1.contains(e));
                            } else {
                                let u = if t < j {
                                    t
                                } else {
                                    t - 1
                                };
                                assert(ov[u] == e);
                                assert(ov.contains(e));
                                assert(g0.contains(e) && qry.matches_spec(e.0));
                                let w = choose|w: int| 0 <= w < g0.len() && g0[w] == e;
                                assert(g1[w] == e);
                                assert(g1.contains(e));
                            }
                        }
                        if g1.contains(e) && qry.matches_spec(e.0) {
                            let t = choose|t: int| 0 <= t < g1.len() && g1[t] == e;
                            if t == i {
                                assert(nv[j as int] == e);
                                assert(nv.contains(e));
                            } else {
                                assert(g0[t] == e);
                                assert(g0.contains(e));
                                assert(ov.contains(e));
                                let u = choose|u: int| 0 <= u < ov.len() && ov[u] == e;
                                if u < j {
                                    assert(nv[u] == e);
                                } else {
                                    assert(nv[u + 1] == e);
                                }
                                assert(nv.contains(e));
                            }
                        }
                    }
                }
            } else {
                proof {
                    assert forall|e: (Seq<char>, Seq<Posting>)| #[trigger] ov.contains(e) <==> (g.take(i + 1).contains(e)
                        && qry.matches_spec(e.0)) by {
                        if g.take(i + 1).contains(e) && qry.matches_spec(e.0) {
                            let g1 = g.take(i + 1);
                            let t = choose|t: int| 0 <= t < g1.len() && g1[t] == e;
                            if t < i {
                                assert(g.take(i as int)[t] == e);
                                assert(g.take(i as int).contains(e));
                            }
                        }
                        if g.take(i as int).contains(e) {
                            let g0 = g.take(i as int);
                            let t = choose|t: int| 0 <= t < g0.len() && g0[t] == e;
                            assert(g.take(i + 1)[t] == e);
                        }
                    }
                }
            }
            i = i + 1;
        }
        assert(g.take(i as int) =~= g);
        Balance { accnts: out }
    }

    /// The accounts of the ledger whose names the query matches, in name
    /// order.
    pub fn from_ledger(ledger: &Ledger<'a>, qry: &Query) -> (r: Balance<'a>)
        ensures
            forall|e: (Seq<char>, Seq<Posting>)| #[trigger] r@.contains(e) <==> (ledger@.contains(e)
                && qry.matches_spec(e.0)),
    {
        Balance::from_groups(ledger.get_all_posting(), qry)
    }

    /// The accounts of the postings of one transaction, in name order:
    /// each account with the postings of the transaction made to it.
    pub fn from_xact(x: &'a Xact) -> (r: Balance<'a>)
        ensures
            names_sorted_v(r@),
            forall|i: int| 0 <= i < r@.len() ==> (#[trigger] r@[i]).1 == postings_to(x.postings@, r@[i].0),
            forall|name: Seq<char>|
                (exists|i: int| 0 <= i < r@.len() && (#[trigger] r@[i]).0 == name) <==> #[trigger] postings_to(
                    x.postings@,
                    name,
                ).len() > 0,
    {
        let ledger = Ledger::from_xact(x);
        let all = Query::all();
        let r = Balance::from_groups(ledger.get_all_posting(), &all);
        proof {
            let g = ledger@;
            assert forall|i: int| 0 <= i < r@.len() implies (#[trigger] r@[i]).1 == postings_to(x.postings@, r@[i].0) by {
                assert(r@.contains(r@[i]));
                let t = choose|t: int| 0 <= t < g.len() && g[t] == r@[i];
            }
            assert forall|name: Seq<char>|
                (exists|i: int| 0 <= i < r@.len() && (#[trigger] r@[i]).0 == name) <==> #[trigger] postings_to(
                    x.postings@,
                    name,
                ).len() > 0 by {
                if exists|i: int| 0 <= i < r@.len() && r@[i].0 == name {
                    let i = choose|i: int| 0 <= i < r@.len() && r@[i].0 == name;
                    assert(r@.contains(r@[i]));
                    let t = choose|t: int| 0 <= t < g.len() && g[t] == r@[i];
                    assert(g[t].0 == name);
                }
                if postings_to(x.postings@, name).len() > 0 {
                    let t = choose|t: int| 0 <= t < g.len() && g[t].0 == name;
                    assert(g.contains(g[t]));
                    assert(all.matches_spec(g[t].0));
                    assert(r@.contains(g[t]));
                    let i = choose|i: int| 0 <= i < r@.len() && r@[i] == g[t];
                    assert(r@[i].0 == name);
                }
            }
            use_type_invariant(&r);
        }
        r
    }

    /// The accounts, in name order.
    pub fn accounts(&self) -> (r: &Vec<Account<'a>>)
        ensures
            r@.map_values(|a: Account<'a>| a@) == self@,
            names_sorted_v(self@),
    {
        proof {
            use_type_invariant(self);
        }
        &self.accnts
    }

    /// The account named `name`, if there is one.
    pub fn account(&self, name: &AccName) -> (r: Option<&Account<'a>>)
        ensures
            r is Some <==> exists|i: int| 0 <= i < self@.len() && (#[trigger] self@[i]).0 == name@,
            r matches Some(a) ==> a@.0 == name@ && self@.contains(a@),
    {
        let ghost v = self@;
        let mut i: usize = 0;
        while i < self.accnts.len()
            invariant
                i <= self.accnts@.len(),
                v == self@,
                v.len() == self.accnts@.len(),
                forall|j: int| 0 <= j < v.len() ==> #[trigger] v[j] == self.accnts@[j]@,
                forall|j: int| 0 <= j < i ==> (#[trigger] v[j]).0 != name@,
            decreases self.accnts@.len() - i,
        {
            assert(v[i as int] == self.accnts@[i as int]@);
            if self.accnts[i].name.same(name) {
                return Some(&self.accnts[i]);
            }
            i = i + 1;
        }
        None
    }

    /// The balances of all the accounts as of `date` added up (see
    /// `total_balance`); `None` where a price is missing or a sum
    /// overflows.
    pub fn balance_as_of_checked(&self, date: Date, price_db: &PriceDB) -> (r: Option<Holdings>)
        ensures
            r is Some <==> total_balance(self@, date, price_db@) is Some,
            r matches Some(h) ==> Some(h@) == total_balance(self@, date, price_db@),
    {
        let ghost v = self@;
        let mut acc = Holdings::new();
        let mut i: usize = 0;
        assert(v.take(0) =~= Seq::<(Seq<char>, Seq<Posting>)>::empty());
        while i < self.accnts.len()
            invariant
                i <= self.accnts@.len(),
                v == self@,
                v.len() == self.accnts@.len(),
                forall|j: int| 0 <= j < v.len() ==> #[trigger] v[j] == self.accnts@[j]@,
                total_balance(v.take(i as int), date, price_db@) == Some(acc@),
            decreases self.accnts@.len() - i,
        {
            assert(v[i as int] == self.accnts@[i as int]@);
            assert(v.take(i + 1).drop_last() =~= v.take(i as int));
            assert(v.take(i + 1).last() == v[i as int]);
            let b = match self.accnts[i].balance_as_of_checked(date, price_db) {
                Some(b) => b,
                None => {
                    proof {
                        assert(total_balance(v.take(i + 1), date, price_db@) is None);
                        lemma_total_stops(v, date, price_db@, i + 1);
                    }
                    return None;
                },
            };
            acc = match acc.merged(b, false) {
                Some(a) => a,
                None => {
                    proof {
                        assert(total_balance(v.take(i + 1), date, price_db@) is None);
                        lemma_total_stops(v, date, price_db@, i + 1);
                    }
                    return None;
                },
            };
            i = i + 1;
        }
        assert(v.take(i as int) =~= v);
        Some(acc)
    }

    /// The balances of all the accounts as of `date` added up (see
    /// `total_balance`).
    pub fn balance_as_of(&self, date: Date, price_db: &PriceDB) -> (r: Holdings)
        requires
            total_balance(self@, date, price_db@) is Some,
        ensures
            Some(r@) == total_balance(self@, date, price_db@),
    {
        self.balance_as_of_checked(date, price_db).unwrap()
    }

    /// The balances of all the accounts with all their postings added up:
    /// as of the last day there is.
    pub fn balance(&self, price_db: &PriceDB) -> (r: Holdings)
        requires
            total_balance(self@, Date::last_spec(), price_db@) is Some,
        ensures
            Some(r@) == total_balance(self@, Date::last_spec(), price_db@),
    {
        self.balance_as_of(Date::last(), price_db)
    }

    /// The hierarchical balance view as of `date` (see `view_as_of`);
    /// `None` where a price is missing or a sum overflows.
    pub fn to_balance_view_as_of(&self, date: Date, price_db: &PriceDB) -> (r: Option<
        BalanceView<HierAccountView<TAmount<Holdings>>>,
    >)
        requires
            forall|i: int| 0 <= i < self@.len() ==> (#[trigger] self@[i]).0.len() > 0,
        ensures
            r is Some <==> view_as_of(self@, date, price_db@) is Some,
            r matches Some(b) ==> Some(b@) == view_as_of(self@, date, price_db@),
    {
        let ghost v = self@;
        let mut acc: BalanceView<HierAccountView<TAmount<Holdings>>> = BalanceView::new();
        let mut i: usize = 0;
        assert(v.take(0) =~= Seq::<(Seq<char>, Seq<Posting>)>::empty());
        while i < self.accnts.len()
            invariant
                i <= self.accnts@.len(),
                v == self@,
                v.len() == self.accnts@.len(),
                forall|j: int| 0 <= j < v.len() ==> (#[trigger] v[j]).0.len() > 0,
                forall|j: int| 0 <= j < v.len() ==> #[trigger] v[j] == self.accnts@[j]@,
                view_as_of(v.take(i as int), date, price_db@) == Some(acc@),
            decreases self.accnts@.len() - i,
        {
            assert(v[i as int] == self.accnts@[i as int]@);
            assert(v.take(i + 1).drop_last() =~= v.take(i as int));
            assert(v.take(i + 1).last() == v[i as int]);
            let h = match self.accnts[i].to_hier_view_as_of(date, price_db) {
                Some(h) => h,
                None => {
                    proof {
                        assert(view_as_of(v.take(i + 1), date, price_db@) is None);
                        lemma_view_stops(v, date, price_db@, i + 1);
                    }
                    return None;
                },
            };
            acc = match acc.add_checked(h) {
                Some(a) => a,
                None => {
                    proof {
                        assert(view_as_of(v.take(i + 1), date, price_db@) is None);
                        lemma_view_stops(v, date, price_db@, i + 1);
                    }
                    return None;
                },
            };
            i = i + 1;
        }
        assert(v.take(i as int) =~= v);
        Some(acc)
    }
}

proof fn lemma_total_stops(v: Seq<(Seq<char>, Seq<Posting>)>, date: Date, db: Map<PriceKey, Quantity>, n: int)
    requires
        0 <= n <= v.len(),
        total_balance(v.take(n), date, db) is None,
    ensures
        total_balance(v, date, db) is None,
    decreases v.len(),
{
    if n < v.len() {
        let init = v.drop_last();
        assert(init.take(n) =~= v.take(n));
        lemma_total_stops(init, date, db, n);
    } else {
        assert(v.take(n) =~= v);
    }
}

proof fn lemma_view_stops(v: Seq<(Seq<char>, Seq<Posting>)>, date: Date, db: Map<PriceKey, Quantity>, n: int)
    requires
        0 <= n <= v.len(),
        view_as_of(v.take(n), date, db) is None,
    ensures
        view_as_of(v, date, db) is None,
    decreases v.len(),
{
    if n < v.len() {
        let init = v.drop_last();
        assert(init.take(n) =~= v.take(n));
        lemma_view_stops(init, date, db, n);
    } else {
        assert(v.take(n) =~= v);
    }
}

/// The flat balance views of the accounts of `v` at each of the dates,
/// added one after the other (see `view_as_of`, `flat_into`); `None`
/// where a price is missing or a sum overflows.
pub open spec fn flat_at_dates(v: Seq<(Seq<char>, Seq<Posting>)>, dates: Seq<Date>, db: Map<PriceKey, Quantity>) -> Option<
    Seq<Keyed<Map<Date, Seq<LotView>>>>,
>
    decreases dates.len(),
{
    if dates.len() == 0 {
        Some(Seq::empty())
    } else {
        match (flat_at_dates(v, dates.drop_last(), db), view_as_of(v, dates.last(), db)) {
            (Some(acc), Some(bv)) => match flat_into::<TAmount<Holdings>>(Seq::empty(), accounts_of(bv)) {
                Some(f) => bv_add_all::<FlatAccountView<TAmount<Holdings>>>(acc, accounts_of(f)),
                None => None,
            },
            _ => None,
        }
    }
}

proof fn lemma_flat_at_stops(v: Seq<(Seq<char>, Seq<Posting>)>, dates: Seq<Date>, db: Map<PriceKey, Quantity>, n: int)
    requires
        0 <= n <= dates.len(),
        flat_at_dates(v, dates.take(n), db) is None,
    ensures
        flat_at_dates(v, dates, db) is None,
    decreases dates.len(),
{
    if n < dates.len() {
        let init = dates.drop_last();
        assert(init.take(n) =~= dates.take(n));
        lemma_flat_at_stops(v, init, db, n);
    } else {
        assert(dates.take(n) =~= dates);
    }
}

impl<'a> Balance<'a> {
    /// The hierarchical balance view at each of the dates: the flat views
    /// as of each date added up (see `flat_at_dates`), made hierarchical
    /// again. `None` where a price is missing, a sum overflows, or a flat
    /// account has no name, where the view cannot be made hierarchical.
    pub fn to_balance_view_at_dates(&self, price_db: &PriceDB, at: &Vec<Date>) -> (r: Option<
        BalanceView<HierAccountView<TAmount<Holdings>>>,
    >)
        requires
            forall|i: int| 0 <= i < self@.len() ==> (#[trigger] self@[i]).0.len() > 0,
        ensures
            r matches Some(b) ==> exists|f: Seq<Keyed<Map<Date, Seq<LotView>>>>|
                flat_at_dates(self@, at@, price_db@) == Some(f) && all_named(f) && Some(b@) == hier_into::<
                    TAmount<Holdings>,
                >(Seq::empty(), accounts_of(f)),
            r is None ==> (match flat_at_dates(self@, at@, price_db@) {
                Some(f) => !all_named(f) || hier_into::<TAmount<Holdings>>(Seq::empty(), accounts_of(f)) is None,
                None => true,
            }),
    {
        let ghost v = self@;
        let ghost ds = at@;
        let mut acc: BalanceView<FlatAccountView<TAmount<Holdings>>> = BalanceView::new();
        let mut i: usize = 0;
        assert(ds.take(0) =~= Seq::<Date>::empty());
        while i < at.len()
            invariant
                i <= ds.len(),
                ds == at@,
                v == self@,
                forall|j: int| 0 <= j < v.len() ==> (#[trigger] v[j]).0.len() > 0,
                flat_at_dates(v, ds.take(i as int), price_db@) == Some(acc@),
            decreases ds.len() - i,
        {
            assert(ds.take(i + 1).drop_last() =~= ds.take(i as int));
            assert(ds.take(i + 1).last() == ds[i as int]);
            let bv = match self.to_balance_view_as_of(at[i], price_db) {
                Some(b) => b,
                None => {
                    proof {
                        assert(flat_at_dates(v, ds.take(i + 1), price_db@) is None);
                        lemma_flat_at_stops(v, ds, price_db@, i + 1);
                    }
                    return None;
                },
            };
            let f = match bv.to_flat() {
                Some(f) => f,
                None => {
                    proof {
                        assert(flat_at_dates(v, ds.take(i + 1), price_db@) is None);
                        lemma_flat_at_stops(v, ds, price_db@, i + 1);
                    }
                    return None;
                },
            };
            acc = match acc.add_balance_checked(f) {
                Some(a) => a,
                None => {
                    proof {
                        assert(flat_at_dates(v, ds.take(i + 1), price_db@) is None);
                        lemma_flat_at_stops(v, ds, price_db@, i + 1);
                    }
                    return None;
                },
            };
            i = i + 1;
        }
        assert(ds.take(i as int) =~= ds);
        if !acc.names_present() {
            return None;
        }
        acc.to_hier()
    }
}

} // verus!
