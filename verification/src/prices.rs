//! Prices of commodities over time.
//!
//! A price database maps each commodity and instant to the price of
//! one unit of the commodity at that instant. Asking for the price of a
//! commodity "as of" an instant gives the price recorded at the latest
//! instant not after it.

use vstd::prelude::*;

use crate::date::DateTime;
use crate::misc::to_datetime;
use crate::pricedb::MarketPrice;
use crate::decimal::decimal_mul;
use crate::report::Valuation;
use crate::xact::{Journal, Posting, Xact};
use crate::quantity::Quantity;
use crate::symbol::Symbol;

verus! {

/// Whether a lot price is fixed (`{=$10}`) or follows the market (`{$10}`).
#[derive(Debug, PartialEq, Eq, Clone, Copy)]
pub enum PriceType {
    Static,
    Floating,
}

/// Whether a price is given per unit (`@`, `{}`) or for the whole
/// quantity (`@@`, `{{}}`).
#[derive(Debug, PartialEq, Eq, Clone, Copy)]
pub enum PriceBasis {
    PerUnit,
    Total,
}

/// A commodity's name and an instant.
pub type PriceKey = (Seq<char>, DateTime);

/// The price of `s` recorded at `t` is the latest one recorded for `s`
/// not after `at`.
pub open spec fn is_latest_upto(m: Map<PriceKey, Quantity>, s: Seq<char>, t: DateTime, at: DateTime) -> bool {
    &&& m.dom().contains((s, t))
    &&& t.before_eq(at)
    &&& forall|u: DateTime| #[trigger] m.dom().contains((s, u)) && u.before_eq(at) ==> u.before_eq(t)
}

/// The price of `s` recorded at `t` is the latest one recorded for `s`.
pub open spec fn is_latest(m: Map<PriceKey, Quantity>, s: Seq<char>, t: DateTime) -> bool {
    &&& m.dom().contains((s, t))
    &&& forall|u: DateTime| #[trigger] m.dom().contains((s, u)) ==> u.before_eq(t)
}

/// The price of `s` as of `at`: the one recorded at the latest instant
/// not after `at`, if any.
pub open spec fn price_as_of_spec(m: Map<PriceKey, Quantity>, s: Seq<char>, at: DateTime) -> Option<Quantity> {
    if exists|t: DateTime| is_latest_upto(m, s, t, at) {
        Some(m[(s, choose|t: DateTime| is_latest_upto(m, s, t, at))])
    } else {
        None
    }
}

/// The latest price recorded for `s`.
pub open spec fn latest_price_spec(m: Map<PriceKey, Quantity>, s: Seq<char>) -> Quantity {
    m[(s, choose|t: DateTime| is_latest(m, s, t))]
}

/// At most one instant is the latest one.
pub proof fn lemma_latest_unique(m: Map<PriceKey, Quantity>, s: Seq<char>, t1: DateTime, t2: DateTime, at: DateTime)
    ensures
        is_latest_upto(m, s, t1, at) && is_latest_upto(m, s, t2, at) ==> t1 == t2,
        is_latest(m, s, t1) && is_latest(m, s, t2) ==> t1 == t2,
{
    DateTime::lemma_order(t1, t2, t2);
}

/// Some price is recorded for `s`.
pub open spec fn has_prices(m: Map<PriceKey, Quantity>, s: Seq<char>) -> bool {
    exists|t: DateTime| #[trigger] m.dom().contains((s, t))
}

/// A simple in-memory database for storing prices of commodities over
/// time.
pub struct PriceDB {
    data: Vec<(Symbol, DateTime, Quantity)>,
}

spec fn key_of(e: (Symbol, DateTime, Quantity)) -> PriceKey {
    (e.0@, e.1)
}

spec fn keys_unique(es: Seq<(Symbol, DateTime, Quantity)>) -> bool {
    forall|i: int, j: int| 0 <= i < j < es.len() ==> key_of(es[i]) != key_of(es[j])
}

spec fn map_of(es: Seq<(Symbol, DateTime, Quantity)>) -> Map<PriceKey, Quantity> {
    Map::new(
        |k: PriceKey| exists|i: int| 0 <= i < es.len() && key_of(es[i]) == k,
        |k: PriceKey| es[choose|i: int| 0 <= i < es.len() && key_of(es[i]) == k].2,
    )
}

/// With unique keys, the entry at `i` gives the price of its key.
proof fn lemma_map_at(es: Seq<(Symbol, DateTime, Quantity)>, i: int)
    requires
        keys_unique(es),
        0 <= i < es.len(),
    ensures
        map_of(es).dom().contains(key_of(es[i])),
        map_of(es)[key_of(es[i])] == es[i].2,
{
    let k = key_of(es[i]);
    assert(exists|j: int| 0 <= j < es.len() && key_of(es[j]) == k);
    let j = choose|j: int| 0 <= j < es.len() && key_of(es[j]) == k;
    if j != i {
        if j < i {
            assert(key_of(es[j]) != key_of(es[i]));
        } else {
            assert(key_of(es[i]) != key_of(es[j]));
        }
    }
}

/// The position of the entry of key `(s, at)`.
fn find_key(data: &Vec<(Symbol, DateTime, Quantity)>, s: &Symbol, at: &DateTime) -> (r: Option<usize>)
    ensures
        match r {
            Some(i) => i < data@.len() && key_of(data@[i as int]) == (s@, *at),
            None => forall|j: int| 0 <= j < data@.len() ==> key_of(data@[j]) != (s@, *at),
        },
{
    let mut i: usize = 0;
    while i < data.len()
        invariant
            i <= data@.len(),
            forall|j: int| 0 <= j < i ==> key_of(data@[j]) != (s@, *at),
        decreases data@.len() - i,
    {
        if data[i].0.same(s) && data[i].1.same(at) {
            return Some(i);
        }
        i = i + 1;
    }
    None
}

impl View for PriceDB {
    type V = Map<PriceKey, Quantity>;

    closed spec fn view(&self) -> Map<PriceKey, Quantity> {
        map_of(self.data@)
    }
}

impl PriceDB {
    #[verifier::type_invariant]
    closed spec fn inv(&self) -> bool {
        keys_unique(self.data@)
    }

    /// Creates a new, empty `PriceDB`.
    pub fn new() -> (r: PriceDB)
        ensures
            r@ == Map::<PriceKey, Quantity>::empty(),
    {
        let r = PriceDB { data: Vec::new() };
        assert(r@ =~= Map::<PriceKey, Quantity>::empty());
        r
    }

    /// Updates or inserts the price for a given commodity at a given
    /// instant.
    pub fn upsert_price(&mut self, s: Symbol, at: DateTime, price: Quantity)
        ensures
            final(self)@ == old(self)@.insert((s@, at), price),
    {
        proof {
            use_type_invariant(&*self);
        }
        let mut data = Vec::new();
        std::mem::swap(&mut data, &mut self.data);
        let ghost es = data@;
        let ghost k = (s@, at);
        let pos = find_key(&data, &s, &at);
        if let Some(i) = pos {
            data.set(i, (s, at, price));
            proof {
                let ns = data@;
                assert(keys_unique(ns)) by {
                    assert forall|a: int, b: int| 0 <= a < b < ns.len() implies key_of(ns[a]) != key_of(ns[b]) by {
                        if a != i && b != i {
                            assert(ns[a] == es[a] && ns[b] == es[b]);
                        } else if a == i {
                            assert(ns[b] == es[b]);
                        } else {
                            assert(ns[a] == es[a]);
                        }
                    }
                }
                assert(map_of(ns) =~= map_of(es).insert(k, price)) by {
                    assert forall|kk: PriceKey| #[trigger] map_of(ns).dom().contains(kk) <==> map_of(es).insert(k, price).dom().contains(kk) by {
                        if map_of(ns).dom().contains(kk) {
                            let j = choose|j: int| 0 <= j < ns.len() && key_of(ns[j]) == kk;
                            if j != i {
                                assert(key_of(es[j]) == kk);
                            }
                        }
                        if map_of(es).dom().contains(kk) {
                            let j = choose|j: int| 0 <= j < es.len() && key_of(es[j]) == kk;
                            if j != i {
                                assert(key_of(ns[j]) == kk);
                            } else {
                                assert(key_of(ns[j]) == kk);
                            }
                        }
                        if kk == k {
                            assert(key_of(ns[i as int]) == kk);
                        }
                    }
                    assert forall|kk: PriceKey| #[trigger] map_of(ns).dom().contains(kk) implies map_of(ns)[kk] == map_of(es).insert(k, price)[kk] by {
                        let j = choose|j: int| 0 <= j < ns.len() && key_of(ns[j]) == kk;
                        lemma_map_at(ns, j);
                        if j != i {
                            assert(ns[j] == es[j]);
                            lemma_map_at(es, j);
                        }
                    }
                }
            }
        } else {
            data.push((s, at, price));
            proof {
                let ns = data@;
                assert(keys_unique(ns)) by {
                    assert forall|a: int, b: int| 0 <= a < b < ns.len() implies key_of(ns[a]) != key_of(ns[b]) by {
                        assert(ns[a] == es[a]);
                        if b < es.len() {
                            assert(ns[b] == es[b]);
                        }
                    }
                }
                assert(map_of(ns) =~= map_of(es).insert(k, price)) by {
                    assert forall|kk: PriceKey| #[trigger] map_of(ns).dom().contains(kk) <==> map_of(es).insert(k, price).dom().contains(kk) by {
                        if map_of(ns).dom().contains(kk) {
                            let j = choose|j: int| 0 <= j < ns.len() && key_of(ns[j]) == kk;
                            if j < es.len() {
                                assert(ns[j] == es[j]);
                                assert(key_of(es[j]) == kk);
                            }
                        }
                        if map_of(es).dom().contains(kk) {
                            let j = choose|j: int| 0 <= j < es.len() && key_of(es[j]) == kk;
                            assert(ns[j] == es[j]);
                            assert(key_of(ns[j]) == kk);
                        }
                        if kk == k {
                            assert(key_of(ns[es.len() as int]) == kk);
                        }
                    }
                    assert forall|kk: PriceKey| #[trigger] map_of(ns).dom().contains(kk) implies map_of(ns)[kk] == map_of(es).insert(k, price)[kk] by {
                        let j = choose|j: int| 0 <= j < ns.len() && key_of(ns[j]) == kk;
                        lemma_map_at(ns, j);
                        if j < es.len() {
                            assert(ns[j] == es[j]);
                            lemma_map_at(es, j);
                        }
                    }
                }
            }
        }
        self.data = data;
    }

    /// The position of the latest price of `s`, not after `at` when `at`
    /// is given.
    fn find_latest(&self, s: &Symbol, at: Option<DateTime>) -> (r: Option<usize>)
        ensures
            match r {
                Some(b) => {
                    &&& b < self.data@.len()
                    &&& self.data@[b as int].0@ == s@
                    &&& (at matches Some(a) ==> self.data@[b as int].1.before_eq(a))
                    &&& forall|j: int|
                        0 <= j < self.data@.len() && #[trigger] self.data@[j].0@ == s@ && (at matches Some(a)
                            ==> self.data@[j].1.before_eq(a)) ==> self.data@[j].1.before_eq(self.data@[b as int].1)
                },
                None => forall|j: int|
                    0 <= j < self.data@.len() && #[trigger] self.data@[j].0@ == s@ ==> (at matches Some(a)
                        && !self.data@[j].1.before_eq(a)),
            },
    {
        let mut best: Option<usize> = None;
        let mut i: usize = 0;
        while i < self.data.len()
            invariant
                i <= self.data@.len(),
                match best {
                    Some(b) => {
                        &&& b < i
                        &&& self.data@[b as int].0@ == s@
                        &&& (at matches Some(a) ==> self.data@[b as int].1.before_eq(a))
                        &&& forall|j: int|
                            0 <= j < i && #[trigger] self.data@[j].0@ == s@ && (at matches Some(a)
                                ==> self.data@[j].1.before_eq(a)) ==> self.data@[j].1.before_eq(
                                self.data@[b as int].1,
                            )
                    },
                    None => forall|j: int|
                        0 <= j < i && #[trigger] self.data@[j].0@ == s@ ==> (at matches Some(a)
                            && !self.data@[j].1.before_eq(a)),
                },
            decreases self.data@.len() - i,
        {
            let e = &self.data[i];
            let ok = match at {
                Some(a) => e.1.le(&a),
                None => true,
            };
            if e.0.same(s) && ok {
                match best {
                    Some(b) => {
                        if self.data[b].1.le(&e.1) {
                            proof {
                                assert forall|j: int|
                                    0 <= j < i + 1 && #[trigger] self.data@[j].0@ == s@ && (at matches Some(a)
                                        ==> self.data@[j].1.before_eq(a)) implies self.data@[j].1.before_eq(
                                    self.data@[i as int].1,
                                ) by {
                                    DateTime::lemma_order(self.data@[j].1, self.data@[b as int].1, self.data@[i as int].1);
                                }
                            }
                            best = Some(i);
                        } else {
                            proof {
                                DateTime::lemma_order(self.data@[i as int].1, self.data@[b as int].1, self.data@[i as int].1);
                            }
                        }
                    },
                    None => {
                        proof {
                            DateTime::lemma_order(self.data@[i as int].1, self.data@[i as int].1, self.data@[i as int].1);
                        }
                        best = Some(i);
                    },
                }
            }
            i = i + 1;
        }
        best
    }

    /// Retrieves the most recent price of a symbol up to a given
    /// instant.
    pub fn price_as_of(&self, s: Symbol, at: DateTime) -> (r: Option<Quantity>)
        ensures
            r == price_as_of_spec(self@, s@, at),
    {
        proof {
            use_type_invariant(self);
        }
        let ghost m = self@;
        let ghost es = self.data@;
        match self.find_latest(&s, Some(at)) {
            Some(b) => {
                let t = self.data[b].1;
                proof {
                    lemma_map_at(es, b as int);
                    assert(is_latest_upto(m, s@, t, at)) by {
                        assert forall|u: DateTime| #[trigger] m.dom().contains((s@, u)) && u.before_eq(at) implies u.before_eq(t) by {
                            let j = choose|j: int| 0 <= j < es.len() && key_of(es[j]) == (s@, u);
                            assert(es[j].0@ == s@);
                        }
                    }
                    let c = choose|c: DateTime| is_latest_upto(m, s@, c, at);
                    assert(is_latest_upto(m, s@, c, at));
                    lemma_latest_unique(m, s@, c, t, at);
                }
                Some(self.data[b].2.duplicate())
            },
            None => {
                proof {
                    assert forall|u: DateTime| #[trigger] m.dom().contains((s@, u)) implies !u.before_eq(at) by {
                        let j = choose|j: int| 0 <= j < es.len() && key_of(es[j]) == (s@, u);
                        assert(es[j].0@ == s@);
                    }
                }
                None
            },
        }
    }

    /// Whether some price is recorded for `s`.
    pub fn has_price(&self, s: &Symbol) -> (r: bool)
        ensures
            r == has_prices(self@, s@),
    {
        proof {
            use_type_invariant(self);
        }
        let ghost m = self@;
        let ghost es = self.data@;
        match self.find_latest(s, None) {
            Some(b) => {
                proof {
                    lemma_map_at(es, b as int);
                    assert(m.dom().contains((s@, es[b as int].1)));
                }
                true
            },
            None => {
                proof {
                    assert forall|t: DateTime| !(#[trigger] m.dom().contains((s@, t))) by {
                        if m.dom().contains((s@, t)) {
                            let j = choose|j: int| 0 <= j < es.len() && key_of(es[j]) == (s@, t);
                            assert(es[j].0@ == s@);
                        }
                    }
                }
                false
            },
        }
    }

    /// Retrieves the most recent price of a symbol, which must have one.
    pub fn latest_price(&self, s: Symbol) -> (r: Quantity)
        requires
            has_prices(self@, s@),
        ensures
            r == latest_price_spec(self@, s@),
    {
        proof {
            use_type_invariant(self);
        }
        let ghost m = self@;
        let ghost es = self.data@;
        proof {
            let t0 = choose|t: DateTime| #[trigger] m.dom().contains((s@, t));
            let j = choose|j: int| 0 <= j < es.len() && key_of(es[j]) == (s@, t0);
            assert(es[j].0@ == s@);
        }
        match self.find_latest(&s, None) {
            Some(b) => {
                let t = self.data[b].1;
                proof {
                    lemma_map_at(es, b as int);
                    assert(is_latest(m, s@, t)) by {
                        assert forall|u: DateTime| #[trigger] m.dom().contains((s@, u)) implies u.before_eq(t) by {
                            let j = choose|j: int| 0 <= j < es.len() && key_of(es[j]) == (s@, u);
                            assert(es[j].0@ == s@);
                        }
                    }
                    let c = choose|c: DateTime| is_latest(m, s@, c);
                    assert(is_latest(m, s@, c));
                    lemma_latest_unique(m, s@, c, t, t);
                }
                self.data[b].2.duplicate()
            },
            None => {
                proof {
                    let t0 = choose|t: DateTime| #[trigger] m.dom().contains((s@, t));
                    let j = choose|j: int| 0 <= j < es.len() && key_of(es[j]) == (s@, t0);
                    assert(es[j].0@ == s@);
                }
                self.data[0].2.duplicate()
            },
        }
    }
}

/// The prices a transaction gives: each posting's unit price, for the
/// posting's commodity, at midnight of the transaction's date.
pub open spec fn xact_price_entries(x: Xact) -> Seq<(PriceKey, Quantity)> {
    x.postings@.map_values(
        |p: crate::xact::Posting| ((p.quantity.s@, x.date.txdate.midnight_of()), p.uprice),
    )
}

/// The prices of the transactions, in order.
pub open spec fn xacts_price_entries(xs: Seq<Xact>) -> Seq<(PriceKey, Quantity)>
    decreases xs.len(),
{
    if xs.len() == 0 {
        Seq::empty()
    } else {
        xacts_price_entries(xs.drop_last()) + xact_price_entries(xs.last())
    }
}

/// The prices of the market price entries, in order.
pub open spec fn market_price_entries(ms: Seq<MarketPrice>) -> Seq<(PriceKey, Quantity)> {
    ms.map_values(|mp: MarketPrice| ((mp.sym@, mp.date_time), mp.price))
}

/// The map `m` after recording the prices `es` in order, a later one
/// replacing an earlier one of the same commodity and instant.
pub open spec fn record_all(m: Map<PriceKey, Quantity>, es: Seq<(PriceKey, Quantity)>) -> Map<PriceKey, Quantity>
    decreases es.len(),
{
    if es.len() == 0 {
        m
    } else {
        record_all(m, es.drop_last()).insert(es.last().0, es.last().1)
    }
}

impl PriceDB {
    /// Records the prices of `es` in order, from `i` on.
    fn record_from(&mut self, es: &[(Symbol, DateTime, Quantity)])
        ensures
            final(self)@ == record_all(old(self)@, es@.map_values(|e: (Symbol, DateTime, Quantity)| ((e.0@, e.1), e.2))),
    {
        let ghost m0 = self@;
        let ghost vs = es@.map_values(|e: (Symbol, DateTime, Quantity)| ((e.0@, e.1), e.2));
        let mut i: usize = 0;
        while i < es.len()
            invariant
                i <= es@.len(),
                vs == es@.map_values(|e: (Symbol, DateTime, Quantity)| ((e.0@, e.1), e.2)),
                vs.len() == es@.len(),
                self@ == record_all(m0, vs.take(i as int)),
            decreases es@.len() - i,
        {
            assert(vs.take(i + 1).drop_last() =~= vs.take(i as int));
            assert(vs.take(i + 1).last() == vs[i as int]);
            self.upsert_price(es[i].0.duplicate(), es[i].1, es[i].2.duplicate());
            i = i + 1;
        }
        assert(vs.take(es@.len() as int) =~= vs);
    }

    /// Records the market prices `mps` in order, each replacing an earlier
    /// price of the same commodity and instant.
    pub fn upsert_market_prices(&mut self, mps: &Vec<MarketPrice>)
        ensures
            final(self)@ == record_all(old(self)@, market_price_entries(mps@)),
    {
        let ghost m0 = self@;
        let ghost vs = market_price_entries(mps@);
        let mut i: usize = 0;
        assert(vs.take(0) =~= Seq::<(PriceKey, Quantity)>::empty());
        while i < mps.len()
            invariant
                i <= mps@.len(),
                vs == market_price_entries(mps@),
                self@ == record_all(m0, vs.take(i as int)),
            decreases mps@.len() - i,
        {
            assert(vs.take(i + 1).drop_last() =~= vs.take(i as int));
            assert(vs.take(i + 1).last() == vs[i as int]);
            let mp = &mps[i];
            self.upsert_price(mp.sym.duplicate(), mp.date_time, mp.price.duplicate());
            i = i + 1;
        }
        assert(vs.take(i as int) =~= vs);
    }

    /// The price database of a journal: the unit price of each posting,
    /// for the posting's commodity at midnight of its transaction's
    /// date, then the market prices, each replacing an earlier one of the
    /// same commodity and instant.
    pub fn from_journal(journal: &Journal) -> (r: PriceDB)
        ensures
            r@ == record_all(
                Map::empty(),
                xacts_price_entries(journal.xacts_spec()) + market_price_entries(journal.prices_spec()),
            ),
    {
        let mut db = PriceDB::new();
        let xs = journal.xacts();
        let mut es: Vec<(Symbol, DateTime, Quantity)> = Vec::new();
        let ghost view_of = |e: (Symbol, DateTime, Quantity)| ((e.0@, e.1), e.2);
        let mut i: usize = 0;
        while i < xs.len()
            invariant
                i <= xs@.len(),
                xs@ == journal.xacts_spec(),
                view_of == (|e: (Symbol, DateTime, Quantity)| ((e.0@, e.1), e.2)),
                es@.map_values(view_of) == xacts_price_entries(xs@.take(i as int)),
            decreases xs@.len() - i,
        {
            let x = &xs[i];
            let at = to_datetime(x.date.txdate);
            let ghost before = es@.map_values(view_of);
            let mut j: usize = 0;
            while j < x.postings.len()
                invariant
                    j <= x.postings@.len(),
                    view_of == (|e: (Symbol, DateTime, Quantity)| ((e.0@, e.1), e.2)),
                    at == x.date.txdate.midnight_of(),
                    es@.map_values(view_of) == before + xact_price_entries(*x).take(j as int),
                decreases x.postings@.len() - j,
            {
                let p = &x.postings[j];
                let ghost b2 = es@;
                es.push((p.quantity.s.duplicate(), at, p.uprice.duplicate()));
                assert(es@.map_values(view_of) =~= b2.map_values(view_of).push(view_of(es@.last())));
                assert(xact_price_entries(*x).take(j + 1) =~= xact_price_entries(*x).take(j as int).push(
                    xact_price_entries(*x)[j as int],
                ));
                assert((before + xact_price_entries(*x).take(j as int)).push(xact_price_entries(*x)[j as int])
                    =~= before + xact_price_entries(*x).take(j + 1));
                j = j + 1;
            }
            assert(xact_price_entries(*x).take(x.postings@.len() as int) =~= xact_price_entries(*x));
            assert(xs@.take(i + 1).drop_last() =~= xs@.take(i as int));
            assert(xs@.take(i + 1).last() == xs@[i as int]);
            i = i + 1;
        }
        assert(xs@.take(xs@.len() as int) =~= xs@);
        let ms = journal.market_prices();
        let mut k: usize = 0;
        let ghost mid = es@.map_values(view_of);
        while k < ms.len()
            invariant
                k <= ms@.len(),
                ms@ == journal.prices_spec(),
                view_of == (|e: (Symbol, DateTime, Quantity)| ((e.0@, e.1), e.2)),
                es@.map_values(view_of) == mid + market_price_entries(ms@).take(k as int),
            decreases ms@.len() - k,
        {
            let mp = &ms[k];
            let ghost b2 = es@;
            es.push((mp.sym.duplicate(), mp.date_time, mp.price.duplicate()));
            assert(es@.map_values(view_of) =~= b2.map_values(view_of).push(view_of(es@.last())));
            assert(market_price_entries(ms@).take(k + 1) =~= market_price_entries(ms@).take(k as int).push(
                market_price_entries(ms@)[k as int],
            ));
            assert((mid + market_price_entries(ms@).take(k as int)).push(market_price_entries(ms@)[k as int])
                =~= mid + market_price_entries(ms@).take(k + 1));
            k = k + 1;
        }
        assert(market_price_entries(ms@).take(ms@.len() as int) =~= market_price_entries(ms@));
        db.record_from(es.as_slice());
        db
    }
}

/// A price just recorded is the price as of its instant.
pub proof fn lemma_price_read_after_write(m: Map<PriceKey, Quantity>, s: Seq<char>, at: DateTime, p: Quantity)
    ensures
        price_as_of_spec(m.insert((s, at), p), s, at) == Some(p),
{
    let n = m.insert((s, at), p);
    DateTime::lemma_order(at, at, at);
    assert(is_latest_upto(n, s, at, at));
    let c = choose|c: DateTime| is_latest_upto(n, s, c, at);
    assert(is_latest_upto(n, s, c, at));
    lemma_latest_unique(n, s, c, at, at);
}

/// Recording a price of one commodity leaves the prices of the others
/// as they were.
pub proof fn lemma_price_other_symbol(
    m: Map<PriceKey, Quantity>,
    s: Seq<char>,
    at: DateTime,
    p: Quantity,
    s2: Seq<char>,
    at2: DateTime,
)
    requires
        s2 != s,
    ensures
        price_as_of_spec(m.insert((s, at), p), s2, at2) == price_as_of_spec(m, s2, at2),
{
    let n = m.insert((s, at), p);
    assert forall|w: DateTime| #[trigger] n.dom().contains((s2, w)) <==> m.dom().contains((s2, w)) by {}
    assert forall|u: DateTime| is_latest_upto(n, s2, u, at2) implies is_latest_upto(m, s2, u, at2) by {
        assert forall|w: DateTime| #[trigger] m.dom().contains((s2, w)) && w.before_eq(at2) implies w.before_eq(u) by {
            assert(n.dom().contains((s2, w)));
        }
    }
    assert forall|u: DateTime| is_latest_upto(m, s2, u, at2) implies is_latest_upto(n, s2, u, at2) by {
        assert forall|w: DateTime| #[trigger] n.dom().contains((s2, w)) && w.before_eq(at2) implies w.before_eq(u) by {
            assert(m.dom().contains((s2, w)));
        }
    }
    if exists|t: DateTime| is_latest_upto(m, s2, t, at2) {
        let c1 = choose|c: DateTime| is_latest_upto(n, s2, c, at2);
        let c2 = choose|c: DateTime| is_latest_upto(m, s2, c, at2);
        assert(is_latest_upto(m, s2, c2, at2));
        assert(is_latest_upto(n, s2, c2, at2));
        assert(is_latest_upto(n, s2, c1, at2));
        lemma_latest_unique(m, s2, c1, c2, at2);
        assert(n[(s2, c1)] == m[(s2, c1)]);
    }
}

/// Of the prices recorded in order, the last one given for a commodity
/// and instant is the one kept: a market price entry overrides the price
/// of a posting at the same commodity and instant, and a later entry an
/// earlier one.
pub proof fn lemma_record_all_last(m: Map<PriceKey, Quantity>, es: Seq<(PriceKey, Quantity)>, i: int)
    requires
        0 <= i < es.len(),
        forall|j: int| i < j < es.len() ==> (#[trigger] es[j]).0 != es[i].0,
    ensures
        record_all(m, es).dom().contains(es[i].0),
        record_all(m, es)[es[i].0] == es[i].1,
    decreases es.len(),
{
    if i < es.len() - 1 {
        let init = es.drop_last();
        assert(es.last() == es[es.len() - 1]);
        assert forall|j: int| i < j < init.len() implies (#[trigger] init[j]).0 != init[i].0 by {
            assert(init[j] == es[j]);
        }
        assert(init[i] == es[i]);
        lemma_record_all_last(m, init, i);
    }
}

/// The keys of the map after recording `es` are those of `m` and those of
/// `es`.
proof fn lemma_record_all_dom(m: Map<PriceKey, Quantity>, es: Seq<(PriceKey, Quantity)>, key: PriceKey)
    ensures
        record_all(m, es).dom().contains(key) <==> (m.dom().contains(key) || exists|j: int|
            0 <= j < es.len() && (#[trigger] es[j]).0 == key),
    decreases es.len(),
{
    if es.len() > 0 {
        let init = es.drop_last();
        lemma_record_all_dom(m, init, key);
        if exists|j: int| 0 <= j < init.len() && (#[trigger] init[j]).0 == key {
            let j = choose|j: int| 0 <= j < init.len() && (#[trigger] init[j]).0 == key;
            assert(es[j] == init[j]);
        }
        if exists|j: int| 0 <= j < es.len() && (#[trigger] es[j]).0 == key {
            let j = choose|j: int| 0 <= j < es.len() && (#[trigger] es[j]).0 == key;
            if j < init.len() {
                assert(init[j] == es[j]);
            }
        }
    }
}

/// After upserting the prices `es` one after the other into an empty
/// database (see `PriceDB::upsert_price`), the price of `s` as of `at`
/// is that of the last upsert for `s` at the greatest instant not after
/// `at`, and there is none when `s` has no upsert at or before `at`.
pub proof fn law_price_after_upserts(es: Seq<(PriceKey, Quantity)>, s: Seq<char>, at: DateTime, k: int)
    ensures
        (forall|j: int| 0 <= j < es.len() && (#[trigger] es[j]).0.0 == s ==> !es[j].0.1.before_eq(at))
            ==> price_as_of_spec(record_all(Map::empty(), es), s, at) is None,
        ({
            &&& 0 <= k < es.len()
            &&& es[k].0.0 == s
            &&& es[k].0.1.before_eq(at)
            &&& forall|j: int|
                0 <= j < es.len() && (#[trigger] es[j]).0.0 == s && es[j].0.1.before_eq(at) ==> es[j].0.1.before_eq(
                    es[k].0.1,
                )
            &&& forall|j: int| k < j < es.len() ==> (#[trigger] es[j]).0 != es[k].0
        }) ==> price_as_of_spec(record_all(Map::empty(), es), s, at) == Some(es[k].1),
{
    let m = record_all(Map::<PriceKey, Quantity>::empty(), es);
    if forall|j: int| 0 <= j < es.len() && (#[trigger] es[j]).0.0 == s ==> !es[j].0.1.before_eq(at) {
        assert forall|t: DateTime| !is_latest_upto(m, s, t, at) by {
            lemma_record_all_dom(Map::empty(), es, (s, t));
            if m.dom().contains((s, t)) {
                let j = choose|j: int| 0 <= j < es.len() && (#[trigger] es[j]).0 == (s, t);
                assert(es[j].0.0 == s);
            }
        }
    }
    if 0 <= k < es.len() && es[k].0.0 == s && es[k].0.1.before_eq(at) && (forall|j: int|
        0 <= j < es.len() && (#[trigger] es[j]).0.0 == s && es[j].0.1.before_eq(at) ==> es[j].0.1.before_eq(
            es[k].0.1,
        )) && (forall|j: int| k < j < es.len() ==> (#[trigger] es[j]).0 != es[k].0) {
        let tk = es[k].0.1;
        lemma_record_all_dom(Map::empty(), es, (s, tk));
        assert(es[k].0 == (s, tk));
        lemma_record_all_last(Map::empty(), es, k);
        assert forall|u: DateTime| #[trigger] m.dom().contains((s, u)) && u.before_eq(at) implies u.before_eq(tk) by {
            lemma_record_all_dom(Map::empty(), es, (s, u));
            let j = choose|j: int| 0 <= j < es.len() && (#[trigger] es[j]).0 == (s, u);
            assert(es[j].0.0 == s);
        }
        assert(is_latest_upto(m, s, tk, at));
        let c = choose|c: DateTime| is_latest_upto(m, s, c, at);
        assert(is_latest_upto(m, s, c, at));
        lemma_latest_unique(m, s, c, tk, at);
    }
}

/// `uprice * quantity`: the product of the numbers, in the commodity of
/// the price; `None` where it overflows.
pub open spec fn priced(uprice: Quantity, q: Quantity) -> Option<Quantity> {
    match decimal_mul(uprice.q, q.q) {
        Some(m) => Some(Quantity { q: m, s: uprice.s }),
        None => None,
    }
}

/// The value of posting `p` under valuation `val`: its quantity, its
/// value at its lot price, at the latest market price of its commodity,
/// or at the price of its commodity as of the posting date.
pub open spec fn posting_value(p: Posting, val: Valuation, db: Map<PriceKey, Quantity>) -> Option<Quantity> {
    match val {
        Valuation::Quantity => Some(p.quantity),
        Valuation::Basis => priced(p.lot_uprice.price, p.quantity),
        Valuation::Market => priced(latest_price_spec(db, p.quantity.s@), p.quantity),
        Valuation::Historical => match price_as_of_spec(db, p.quantity.s@, p.date.midnight_of()) {
            Some(up) => priced(up, p.quantity),
            None => None,
        },
    }
}

/// What valuing posting `p` under `val` needs: prices of its commodity
/// for the market valuation, a price as of its date for the historical
/// one, and a product that does not overflow.
pub open spec fn value_defined(p: Posting, val: Valuation, db: Map<PriceKey, Quantity>) -> bool {
    &&& (val is Market ==> has_prices(db, p.quantity.s@))
    &&& posting_value(p, val, db) is Some
}

impl Posting {
    /// The value of the posting under valuation `val` (see
    /// `posting_value`).
    pub fn value(&self, val: Valuation, price_db: &PriceDB) -> (r: Quantity)
        requires
            value_defined(*self, val, price_db@),
        ensures
            Some(r) == posting_value(*self, val, price_db@),
    {
        match val {
            Valuation::Quantity => self.quantity.duplicate(),
            Valuation::Basis => self.book_value(),
            Valuation::Market => self.market_value(price_db),
            Valuation::Historical => self.historical_value(price_db),
        }
    }

    /// The value of the posting under valuation `val` where it has one
    /// (see `posting_value`); `None` for a market valuation of a
    /// commodity without prices, and where the product overflows or no
    /// price as of the posting date is known.
    pub fn value_checked(&self, val: Valuation, price_db: &PriceDB) -> (r: Option<Quantity>)
        ensures
            r == if val is Market && !has_prices(price_db@, self.quantity.s@) {
                None
            } else {
                posting_value(*self, val, price_db@)
            },
    {
        match val {
            Valuation::Quantity => Some(self.quantity.duplicate()),
            Valuation::Basis => self.lot_uprice.price.duplicate().checked_mul(self.quantity.q),
            Valuation::Market => {
                if !price_db.has_price(&self.quantity.s) {
                    return None;
                }
                let uprice = price_db.latest_price(self.quantity.s.duplicate());
                uprice.checked_mul(self.quantity.q)
            },
            Valuation::Historical => {
                match price_db.price_as_of(self.quantity.s.duplicate(), to_datetime(self.date)) {
                    Some(uprice) => uprice.checked_mul(self.quantity.q),
                    None => None,
                }
            },
        }
    }

    /// The value of the posting at the latest market price of its
    /// commodity.
    pub fn market_value(&self, price_db: &PriceDB) -> (r: Quantity)
        requires
            has_prices(price_db@, self.quantity.s@),
            priced(latest_price_spec(price_db@, self.quantity.s@), self.quantity) is Some,
        ensures
            Some(r) == priced(latest_price_spec(price_db@, self.quantity.s@), self.quantity),
    {
        let uprice = price_db.latest_price(self.quantity.s.duplicate());
        uprice.mul_quantity(&self.quantity)
    }

    /// The value of the posting at the price of its commodity as of the
    /// posting date.
    pub fn historical_value(&self, price_db: &PriceDB) -> (r: Quantity)
        requires
            match price_as_of_spec(price_db@, self.quantity.s@, self.date.midnight_of()) {
                Some(up) => priced(up, self.quantity) is Some,
                None => false,
            },
        ensures
            Some(r) == priced(
                price_as_of_spec(price_db@, self.quantity.s@, self.date.midnight_of()).unwrap(),
                self.quantity,
            ),
    {
        match price_db.price_as_of(self.quantity.s.duplicate(), to_datetime(self.date)) {
            Some(uprice) => uprice.mul_quantity(&self.quantity),
            None => self.quantity.duplicate(),
        }
    }
}

} // verus!
