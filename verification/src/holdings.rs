//! Holdings: for each commodity, the quantity held and its unit prices
//! (market, historical and book), each price the average of the lots
//! that made the holding, weighted by their quantities.

use vstd::prelude::*;

use crate::amount::{
    amount_same, amount_of, apply_all, apply_all_ok, combine, drop_zeros, scale_all, scale_all_ok, views_of, Amount,
    Entry,
};
use crate::report::Valuation;
use crate::symbol::Symbol;
use crate::decimal::{decimal_div, decimal_mul, decimal_sub, Dec};
use crate::quantity::Quantity;

verus! {

/// A lot by value: its quantity and its market, historical and book unit
/// prices.
pub type LotView = (Entry, Seq<Entry>, Seq<Entry>, Seq<Entry>);

/// A quantity of a commodity with its unit prices.
#[derive(Debug, PartialEq)]
pub struct Lot {
    /// quantity of the commodity
    pub qty: Quantity,
    /// market unit price
    pub m_uprice: Amount,
    /// unit price at the moment of the transaction
    pub h_uprice: Amount,
    /// book unit price
    pub b_uprice: Amount,
}

impl View for Lot {
    type V = LotView;

    open spec fn view(&self) -> LotView {
        (self.qty@, self.m_uprice.entries(), self.h_uprice.entries(), self.b_uprice.entries())
    }
}

/// Two lots of the same commodity are equal: same quantity (`1.0`
/// equals `1.00`) and same unit prices.
pub open spec fn lot_same(x: LotView, y: LotView) -> bool {
    &&& x.0.1.value_eq(y.0.1)
    &&& amount_same(x.1, y.1)
    &&& amount_same(x.2, y.2)
    &&& amount_same(x.3, y.3)
}

/// Both hold lots of the same commodities, equal commodity by commodity,
/// in whatever order.
pub open spec fn hold_same(a: Seq<LotView>, b: Seq<LotView>) -> bool {
    &&& a.len() == b.len()
    &&& forall|i: int|
        #![trigger a[i]]
        0 <= i < a.len() ==> lot_pos(b, a[i].0.0) >= 0 && lot_same(a[i], b[lot_pos(b, a[i].0.0)])
}

/// The average of the unit prices `up` (for quantity `q`) and `up2` (for
/// `q2`, subtracted when `sub`), weighted by the quantities, over the
/// total `tot`: `(up * q ± up2 * q2) / tot`. `None` where a step
/// overflows.
pub open spec fn avg_prices(up: Seq<Entry>, q: Dec, up2: Seq<Entry>, q2: Dec, sub: bool, tot: Dec) -> Option<
    Seq<Entry>,
> {
    if scale_all_ok(up, q, false) && scale_all_ok(up2, q2, false) {
        let x = scale_all(up, q, false);
        let y = scale_all(up2, q2, false);
        if apply_all_ok(x, y, sub) {
            let z = drop_zeros(apply_all(x, y, sub));
            if scale_all_ok(z, tot, true) {
                Some(scale_all(z, tot, true))
            } else {
                None
            }
        } else {
            None
        }
    } else {
        None
    }
}

/// Adding (or subtracting) lot `b` to lot `a`: the quantities add up and
/// the prices are averaged; a lot whose quantity becomes zero has no
/// prices left. `None` where a step overflows.
pub open spec fn lot_merge(a: LotView, b: LotView, sub: bool) -> Option<LotView> {
    match combine(a.0.1, b.0.1, sub) {
        None => None,
        Some(tot) => if tot.mant() == 0 {
            Some(((a.0.0, Dec::zero_spec()), Seq::empty(), Seq::empty(), Seq::empty()))
        } else {
            match (
                avg_prices(a.1, a.0.1, b.1, b.0.1, sub, tot),
                avg_prices(a.2, a.0.1, b.2, b.0.1, sub, tot),
                avg_prices(a.3, a.0.1, b.3, b.0.1, sub, tot),
            ) {
                (Some(m), Some(h), Some(bb)) => Some(((a.0.0, tot), m, h, bb)),
                _ => None,
            }
        },
    }
}

/// Merging two lots of a commodity averages each kind of unit price on
/// its own: the market unit price of the merged lot is the average of the
/// two market unit prices weighted by the quantities (`avg_prices`), the
/// historical unit price that of the two historical ones and the book
/// unit price that of the two book ones; the quantities add up.
pub proof fn law_merge_weighted_averages(a: LotView, b: LotView, sub: bool)
    requires
        lot_merge(a, b, sub) is Some,
        combine(a.0.1, b.0.1, sub) matches Some(t) && t.mant() != 0,
    ensures
        ({
            let tot = combine(a.0.1, b.0.1, sub).unwrap();
            let r = lot_merge(a, b, sub).unwrap();
            &&& r.0 == (a.0.0, tot)
            &&& Some(r.1) == avg_prices(a.1, a.0.1, b.1, b.0.1, sub, tot)
            &&& Some(r.2) == avg_prices(a.2, a.0.1, b.2, b.0.1, sub, tot)
            &&& Some(r.3) == avg_prices(a.3, a.0.1, b.3, b.0.1, sub, tot)
        }),
{
}

/// Lots whose quantities cancel out merge into a lot of quantity zero
/// with no prices left.
pub proof fn law_merge_to_zero(a: LotView, b: LotView, sub: bool)
    requires
        combine(a.0.1, b.0.1, sub) matches Some(t) && t.mant() == 0,
    ensures
        lot_merge(a, b, sub) == Some(
            ((a.0.0, Dec::zero_spec()), Seq::<Entry>::empty(), Seq::<Entry>::empty(), Seq::<Entry>::empty()),
        ),
{
}

/// Each kind of unit price of a merged lot depends on the quantities and
/// on the unit prices of that kind alone: two merges of lots with the
/// same quantities and the same market (historical, book) unit prices
/// give the same market (historical, book) unit price, whatever the
/// prices of the other kinds.
pub proof fn law_merge_prices_by_kind(a: LotView, b: LotView, a2: LotView, b2: LotView, sub: bool)
    requires
        a.0 == a2.0,
        b.0 == b2.0,
        lot_merge(a, b, sub) is Some,
        lot_merge(a2, b2, sub) is Some,
    ensures
        lot_merge(a, b, sub).unwrap().0 == lot_merge(a2, b2, sub).unwrap().0,
        a.1 == a2.1 && b.1 == b2.1 ==> lot_merge(a, b, sub).unwrap().1 == lot_merge(a2, b2, sub).unwrap().1,
        a.2 == a2.2 && b.2 == b2.2 ==> lot_merge(a, b, sub).unwrap().2 == lot_merge(a2, b2, sub).unwrap().2,
        a.3 == a2.3 && b.3 == b2.3 ==> lot_merge(a, b, sub).unwrap().3 == lot_merge(a2, b2, sub).unwrap().3,
{
}

/// The market (historical, book) value of a merged lot depends on the
/// quantities and the market (historical, book) unit prices of the two
/// lots alone.
pub proof fn law_merge_value_by_kind(a: LotView, b: LotView, a2: LotView, b2: LotView, sub: bool, v: Valuation)
    requires
        a.0 == a2.0,
        b.0 == b2.0,
        lot_merge(a, b, sub) is Some,
        lot_merge(a2, b2, sub) is Some,
        v is Market ==> a.1 == a2.1 && b.1 == b2.1,
        v is Historical ==> a.2 == a2.2 && b.2 == b2.2,
        v is Basis ==> a.3 == a2.3 && b.3 == b2.3,
    ensures
        lot_value(lot_merge(a, b, sub).unwrap(), v) == lot_value(lot_merge(a2, b2, sub).unwrap(), v),
{
    law_merge_prices_by_kind(a, b, a2, b2, sub);
}

fn avg(up: Amount, q: Dec, up2: Amount, q2: Dec, sub: bool, tot: Dec) -> (r: Option<Amount>)
    ensures
        r is Some <==> avg_prices(up.entries(), q, up2.entries(), q2, sub, tot) is Some,
        r matches Some(a) ==> a.entries() == avg_prices(up.entries(), q, up2.entries(), q2, sub, tot).unwrap(),
{
    let x = match up.checked_scale(q, false) {
        Some(x) => x,
        None => {
            return None;
        },
    };
    let y = match up2.checked_scale(q2, false) {
        Some(y) => y,
        None => {
            return None;
        },
    };
    let z = match x.checked_apply(&y, sub) {
        Some(z) => z,
        None => {
            return None;
        },
    };
    z.checked_scale(tot, true)
}

impl Lot {
    /// A second lot equal to this one.
    pub fn duplicate(&self) -> (r: Lot)
        ensures
            r@ == self@,
    {
        Lot {
            qty: self.qty.duplicate(),
            m_uprice: self.m_uprice.duplicate(),
            h_uprice: self.h_uprice.duplicate(),
            b_uprice: self.b_uprice.duplicate(),
        }
    }

    /// Makes the quantity zero and removes the prices.
    pub fn make_zero(&mut self)
        ensures
            final(self)@ == ((old(self).qty.s@, Dec::zero_spec()), Seq::<Entry>::empty(), Seq::<Entry>::empty(), Seq::<Entry>::empty()),
    {
        self.qty.q = Dec::zero();
        self.m_uprice = Amount::new();
        self.h_uprice = Amount::new();
        self.b_uprice = Amount::new();
        assert(self.m_uprice.entries() =~= Seq::<Entry>::empty());
        assert(self.h_uprice.entries() =~= Seq::<Entry>::empty());
        assert(self.b_uprice.entries() =~= Seq::<Entry>::empty());
    }

    /// Adds (or subtracts) `rhs` as `lot_merge` says; `None` where a step
    /// overflows.
    pub fn merge_checked(self, rhs: Lot, sub: bool) -> (r: Option<Lot>)
        ensures
            r is Some <==> lot_merge(self@, rhs@, sub) is Some,
            r matches Some(l) ==> l@ == lot_merge(self@, rhs@, sub).unwrap(),
    {
        let tot = if sub {
            self.qty.q.checked_sub(&rhs.qty.q)
        } else {
            self.qty.q.checked_add(&rhs.qty.q)
        };
        let tot = match tot {
            Some(t) => t,
            None => {
                return None;
            },
        };
        let mut a = self;
        if tot.is_zero() {
            a.make_zero();
            return Some(a);
        }
        let q = a.qty.q;
        let q2 = rhs.qty.q;
        let Lot { qty, m_uprice, h_uprice, b_uprice } = a;
        let Lot { qty: _, m_uprice: m2, h_uprice: h2, b_uprice: b2 } = rhs;
        let m = match avg(m_uprice, q, m2, q2, sub, tot) {
            Some(m) => m,
            None => {
                return None;
            },
        };
        let h = match avg(h_uprice, q, h2, q2, sub, tot) {
            Some(h) => h,
            None => {
                return None;
            },
        };
        let b = match avg(b_uprice, q, b2, q2, sub, tot) {
            Some(b) => b,
            None => {
                return None;
            },
        };
        Some(Lot { qty: Quantity { q: tot, s: qty.s }, m_uprice: m, h_uprice: h, b_uprice: b })
    }

    /// `self + rhs`: the quantities add up and the prices are averaged,
    /// weighted by the quantities (see `lot_merge`).
    pub fn add(self, rhs: Lot) -> (r: Lot)
        requires
            lot_merge(self@, rhs@, false) is Some,
        ensures
            r@ == lot_merge(self@, rhs@, false).unwrap(),
    {
        match self.merge_checked(rhs, false) {
            Some(l) => l,
            None => Lot {
                qty: Quantity { q: Dec::zero(), s: crate::symbol::Symbol::new("") },
                m_uprice: Amount::new(),
                h_uprice: Amount::new(),
                b_uprice: Amount::new(),
            },
        }
    }

    /// `self - rhs` (see `lot_merge`).
    pub fn sub(self, rhs: Lot) -> (r: Lot)
        requires
            lot_merge(self@, rhs@, true) is Some,
        ensures
            r@ == lot_merge(self@, rhs@, true).unwrap(),
    {
        match self.merge_checked(rhs, true) {
            Some(l) => l,
            None => Lot {
                qty: Quantity { q: Dec::zero(), s: crate::symbol::Symbol::new("") },
                m_uprice: Amount::new(),
                h_uprice: Amount::new(),
                b_uprice: Amount::new(),
            },
        }
    }
}

/// The value of a lot: its quantity, or its unit price of the valuation
/// times its quantity. `None` where a product overflows.
pub open spec fn lot_value(l: LotView, v: Valuation) -> Option<Seq<Entry>> {
    let q = l.0.1;
    let up = match v {
        Valuation::Quantity => Seq::empty(),
        Valuation::Market => l.1,
        Valuation::Historical => l.2,
        Valuation::Basis => l.3,
    };
    match v {
        Valuation::Quantity => Some(amount_of(l.0.0, q)),
        _ => if scale_all_ok(up, q, false) {
            Some(scale_all(up, q, false))
        } else {
            None
        },
    }
}

impl Lot {
    /// The value of the lot under valuation `v` (see `lot_value`), or
    /// `None` where a product overflows.
    pub fn valued_in_checked(&self, v: Valuation) -> (r: Option<Amount>)
        ensures
            r is Some <==> lot_value(self@, v) is Some,
            r matches Some(a) ==> a.entries() == lot_value(self@, v).unwrap(),
    {
        let q = self.qty.q;
        match v {
            Valuation::Quantity => Some(self.qty.duplicate().to_amount()),
            Valuation::Market => self.m_uprice.duplicate().checked_scale(q, false),
            Valuation::Historical => self.h_uprice.duplicate().checked_scale(q, false),
            Valuation::Basis => self.b_uprice.duplicate().checked_scale(q, false),
        }
    }
}

/// Position of the lot of commodity `s`, or `-1`.
pub open spec fn lot_pos(hs: Seq<LotView>, s: Seq<char>) -> int
    decreases hs.len(),
{
    if hs.len() == 0 {
        -1
    } else if hs.last().0.0 == s {
        hs.len() - 1
    } else {
        lot_pos(hs.drop_last(), s)
    }
}

/// No commodity has two lots.
pub open spec fn lots_distinct(hs: Seq<LotView>) -> bool {
    forall|i: int, j: int| 0 <= i < j < hs.len() ==> hs[i].0.0 != hs[j].0.0
}

/// The lot of commodity `s` with no quantity and no prices.
pub open spec fn zero_lot(s: Seq<char>) -> LotView {
    ((s, Dec::zero_spec()), Seq::empty(), Seq::empty(), Seq::empty())
}

/// Adds (or subtracts) lot `l` to the lot of its commodity; for a
/// commodity not held yet, the lot is added to (or subtracted from) an
/// empty lot of that commodity, at the end. `None` where a step
/// overflows.
pub open spec fn hold_merge(hs: Seq<LotView>, l: LotView, sub: bool) -> Option<Seq<LotView>> {
    let i = lot_pos(hs, l.0.0);
    if i >= 0 {
        match lot_merge(hs[i], l, sub) {
            Some(m) => Some(hs.update(i, m)),
            None => None,
        }
    } else if sub {
        match lot_merge(zero_lot(l.0.0), l, true) {
            Some(m) => Some(hs.push(m)),
            None => None,
        }
    } else {
        Some(hs.push(l))
    }
}

/// Merges the lots `ls` one after the other.
pub open spec fn hold_merge_all(hs: Seq<LotView>, ls: Seq<LotView>, sub: bool) -> Option<Seq<LotView>>
    decreases ls.len(),
{
    if ls.len() == 0 {
        Some(hs)
    } else {
        match hold_merge_all(hs, ls.drop_last(), sub) {
            Some(h) => hold_merge(h, ls.last(), sub),
            None => None,
        }
    }
}

/// The lots whose quantity is not zero, in order.
pub open spec fn drop_zero_lots(hs: Seq<LotView>) -> Seq<LotView> {
    hs.filter(|l: LotView| l.0.1.mant() != 0)
}

/// Adds the lots `ls` one after the other, dropping zero lots after
/// each.
pub open spec fn hold_sum(hs: Seq<LotView>, ls: Seq<LotView>) -> Option<Seq<LotView>>
    decreases ls.len(),
{
    if ls.len() == 0 {
        Some(hs)
    } else {
        match hold_sum(hs, ls.drop_last()) {
            Some(h) => match hold_merge(h, ls.last(), false) {
                Some(m) => Some(drop_zero_lots(m)),
                None => None,
            },
            None => None,
        }
    }
}

/// Sets the lot of each commodity of `ls` in turn, a later lot of a
/// commodity replacing an earlier one.
pub open spec fn hold_set_all(ls: Seq<LotView>) -> Seq<LotView>
    decreases ls.len(),
{
    if ls.len() == 0 {
        Seq::empty()
    } else {
        let h = hold_set_all(ls.drop_last());
        let i = lot_pos(h, ls.last().0.0);
        if i >= 0 {
            h.update(i, ls.last())
        } else {
            h.push(ls.last())
        }
    }
}

/// The value of holdings: the values of their lots added up in order,
/// zero quantities dropped. `None` where a step overflows.
pub open spec fn hold_value(hs: Seq<LotView>, v: Valuation) -> Option<Seq<Entry>>
    decreases hs.len(),
{
    if hs.len() == 0 {
        Some(Seq::empty())
    } else {
        match (hold_value(hs.drop_last(), v), lot_value(hs.last(), v)) {
            (Some(acc), Some(x)) => if apply_all_ok(acc, x, false) {
                Some(drop_zeros(apply_all(acc, x, false)))
            } else {
                None
            },
            _ => None,
        }
    }
}

proof fn lemma_lot_pos(hs: Seq<LotView>, s: Seq<char>)
    ensures
        -1 <= lot_pos(hs, s) < hs.len(),
        lot_pos(hs, s) >= 0 ==> hs[lot_pos(hs, s)].0.0 == s,
        forall|j: int| lot_pos(hs, s) < j < hs.len() ==> hs[j].0.0 != s,
    decreases hs.len(),
{
    if hs.len() > 0 && hs.last().0.0 != s {
        let init = hs.drop_last();
        lemma_lot_pos(init, s);
        assert(forall|j: int| 0 <= j < init.len() ==> hs[j] == init[j]);
    }
}

proof fn lemma_hold_merge_distinct(hs: Seq<LotView>, l: LotView, sub: bool)
    requires
        lots_distinct(hs),
    ensures
        hold_merge(hs, l, sub) matches Some(h) ==> lots_distinct(h),
{
    lemma_lot_pos(hs, l.0.0);
    let i = lot_pos(hs, l.0.0);
    if i >= 0 {
        if let Some(m) = lot_merge(hs[i], l, sub) {
            assert(m.0.0 == hs[i].0.0);
            let h = hs.update(i, m);
            assert forall|a: int, b: int| 0 <= a < b < h.len() implies h[a].0.0 != h[b].0.0 by {
                if a != i && b != i {
                    assert(h[a] == hs[a] && h[b] == hs[b]);
                } else if a == i {
                    assert(h[b] == hs[b]);
                } else {
                    assert(h[a] == hs[a]);
                }
            }
        }
    } else if !sub {
        let h = hs.push(l);
        assert forall|a: int, b: int| 0 <= a < b < h.len() implies h[a].0.0 != h[b].0.0 by {
            assert(h[a] == hs[a]);
            if b < hs.len() {
                assert(h[b] == hs[b]);
            }
        }
    } else {
        if let Some(m) = lot_merge(zero_lot(l.0.0), l, true) {
            assert(m.0.0 == l.0.0);
            let h = hs.push(m);
            assert forall|a: int, b: int| 0 <= a < b < h.len() implies h[a].0.0 != h[b].0.0 by {
                assert(h[a] == hs[a]);
                if b < hs.len() {
                    assert(h[b] == hs[b]);
                }
            }
        }
    }
}

proof fn lemma_drop_zero_lots(hs: Seq<LotView>)
    requires
        lots_distinct(hs),
    ensures
        lots_distinct(drop_zero_lots(hs)),
        forall|i: int| 0 <= i < drop_zero_lots(hs).len() ==> (#[trigger] drop_zero_lots(hs)[i]).0.1.mant() != 0,
        forall|i: int| 0 <= i < drop_zero_lots(hs).len() ==> hs.contains(#[trigger] drop_zero_lots(hs)[i]),
    decreases hs.len(),
{
    reveal(Seq::filter);
    if hs.len() > 0 {
        let init = hs.drop_last();
        assert(forall|j: int| 0 <= j < init.len() ==> hs[j] == init[j]);
        lemma_drop_zero_lots(init);
        let r = drop_zero_lots(init);
        assert(drop_zero_lots(hs) == (if hs.last().0.1.mant() != 0 { r.push(hs.last()) } else { r }));
        assert forall|k: int| 0 <= k < r.len() implies hs.contains(#[trigger] r[k]) by {
            assert(init.contains(r[k]));
            let j = choose|j: int| 0 <= j < init.len() && init[j] == r[k];
            assert(hs[j] == init[j]);
        }
        if hs.last().0.1.mant() != 0 {
            assert(hs[hs.len() - 1] == hs.last());
            let h = r.push(hs.last());
            assert forall|k: int| 0 <= k < h.len() implies hs.contains(#[trigger] h[k]) by {
                if k < r.len() {
                    assert(h[k] == r[k]);
                }
            }
        }
        if hs.last().0.1.mant() != 0 {
            assert forall|k: int| 0 <= k < r.len() implies r[k].0.0 != hs.last().0.0 by {
                assert(init.contains(r[k]));
                let j = choose|j: int| 0 <= j < init.len() && init[j] == r[k];
                assert(hs[j] == init[j]);
                assert(hs[hs.len() - 1] == hs.last());
            }
            let h = r.push(hs.last());
            assert forall|a: int, b: int| 0 <= a < b < h.len() implies h[a].0.0 != h[b].0.0 by {
                assert(h[a] == r[a]);
                if b < r.len() {
                    assert(h[b] == r[b]);
                }
            }
        }
    }
}

/// The quantities and prices held, one lot per commodity.
#[derive(Debug, PartialEq)]
pub struct Holdings {
    qs: Vec<Lot>,
}

impl View for Holdings {
    type V = Seq<LotView>;

    closed spec fn view(&self) -> Seq<LotView> {
        self.qs@.map_values(|l: Lot| l@)
    }
}

impl Holdings {
    #[verifier::type_invariant]
    closed spec fn inv(&self) -> bool {
        lots_distinct(self@)
    }

    /// No lot.
    pub fn new() -> (r: Holdings)
        ensures
            r@ == Seq::<LotView>::empty(),
    {
        let r = Holdings { qs: Vec::new() };
        assert(r@ =~= Seq::<LotView>::empty());
        r
    }

    /// The position of the lot of commodity `s`.
    fn find(qs: &Vec<Lot>, s: &Symbol) -> (r: Option<usize>)
        ensures
            match r {
                Some(i) => i == lot_pos(qs@.map_values(|l: Lot| l@), s@) && i < qs@.len(),
                None => lot_pos(qs@.map_values(|l: Lot| l@), s@) == -1,
            },
    {
        let ghost hs = qs@.map_values(|l: Lot| l@);
        proof {
            lemma_lot_pos(hs, s@);
        }
        let mut i: usize = qs.len();
        while i > 0
            invariant
                i <= qs@.len(),
                hs == qs@.map_values(|l: Lot| l@),
                hs.len() == qs@.len(),
                -1 <= lot_pos(hs, s@) < hs.len(),
                lot_pos(hs, s@) >= 0 ==> hs[lot_pos(hs, s@)].0.0 == s@,
                forall|j: int| lot_pos(hs, s@) < j < hs.len() ==> hs[j].0.0 != s@,
                forall|j: int| i <= j < hs.len() ==> hs[j].0.0 != s@,
            decreases i,
        {
            assert(hs[i - 1] == qs@[i - 1]@);
            if qs[i - 1].qty.s.same(s) {
                proof {
                    if lot_pos(hs, s@) < i - 1 {
                        assert(hs[i - 1].0.0 != s@);
                    }
                    if lot_pos(hs, s@) > i - 1 {
                        assert(hs[lot_pos(hs, s@)].0.0 == s@);
                    }
                }
                return Some(i - 1);
            }
            i = i - 1;
        }
        proof {
            if lot_pos(hs, s@) >= 0 {
                assert(hs[lot_pos(hs, s@)].0.0 == s@);
            }
        }
        None
    }

    /// Merges `lot` into `qs` as `hold_merge` says, without dropping zero
    /// lots; `false` where a step overflows, `qs` then being unusable.
    fn merge_into(qs: &mut Vec<Lot>, lot: Lot, sub: bool) -> (ok: bool)
        requires
            lots_distinct(old(qs)@.map_values(|l: Lot| l@)),
        ensures
            ok == (hold_merge(old(qs)@.map_values(|l: Lot| l@), lot@, sub) is Some),
            ok ==> final(qs)@.map_values(|l: Lot| l@) == hold_merge(
                old(qs)@.map_values(|l: Lot| l@),
                lot@,
                sub,
            ).unwrap(),
            ok ==> lots_distinct(final(qs)@.map_values(|l: Lot| l@)),
    {
        let ghost hs = qs@.map_values(|l: Lot| l@);
        proof {
            lemma_hold_merge_distinct(hs, lot@, sub);
            lemma_lot_pos(hs, lot@.0.0);
        }
        match Holdings::find(qs, &lot.qty.s) {
            Some(i) => {
                assert(hs[i as int] == qs@[i as int]@);
                let cur = qs.remove(i);
                match cur.merge_checked(lot, sub) {
                    Some(m) => {
                        qs.insert(i, m);
                        assert(qs@.map_values(|l: Lot| l@) =~= hs.update(i as int, qs@[i as int]@));
                        true
                    },
                    None => false,
                }
            },
            None => {
                if !sub {
                    qs.push(lot);
                    assert(qs@.map_values(|l: Lot| l@) =~= hs.push(qs@.last()@));
                    true
                } else {
                    let empty = Lot {
                        qty: Quantity { q: Dec::zero(), s: lot.qty.s.duplicate() },
                        m_uprice: Amount::new(),
                        h_uprice: Amount::new(),
                        b_uprice: Amount::new(),
                    };
                    assert(empty@.1 =~= Seq::<Entry>::empty());
                    assert(empty@.2 =~= Seq::<Entry>::empty());
                    assert(empty@.3 =~= Seq::<Entry>::empty());
                    assert(empty@ == zero_lot(lot@.0.0));
                    match empty.merge_checked(lot, true) {
                        Some(m) => {
                            qs.push(m);
                            assert(qs@.map_values(|l: Lot| l@) =~= hs.push(qs@.last()@));
                            true
                        },
                        None => false,
                    }
                }
            },
        }
    }

    /// Drops the lots whose quantity is zero.
    fn remove_zero(qs: Vec<Lot>) -> (r: Vec<Lot>)
        ensures
            r@.map_values(|l: Lot| l@) == drop_zero_lots(qs@.map_values(|l: Lot| l@)),
    {
        let ghost hs = qs@.map_values(|l: Lot| l@);
        let ghost orig = qs@;
        let total = qs.len();
        let mut todo = qs;
        let mut out: Vec<Lot> = Vec::new();
        let mut k: usize = 0;
        proof {
            reveal(Seq::filter);
        }
        assert(hs.take(0) =~= Seq::<LotView>::empty());
        assert(out@.map_values(|l: Lot| l@) =~= Seq::<LotView>::empty());
        while todo.len() > 0
            invariant
                total == orig.len(),
                hs == orig.map_values(|l: Lot| l@),
                hs.len() == orig.len(),
                k + todo@.len() == orig.len(),
                todo@ == orig.subrange(k as int, orig.len() as int),
                out@.map_values(|l: Lot| l@) == drop_zero_lots(hs.take(k as int)),
            decreases todo@.len(),
        {
            let l = todo.remove(0);
            proof {
                reveal(Seq::filter);
            }
            assert(l == orig[k as int]);
            assert(hs[k as int] == l@);
            assert(hs.take(k + 1).drop_last() =~= hs.take(k as int));
            assert(hs.take(k + 1).last() == l@);
            if !l.qty.q.is_zero() {
                let ghost before = out@;
                out.push(l);
                assert(out@.map_values(|l: Lot| l@) =~= before.map_values(|l: Lot| l@).push(out@.last()@));
            }
            k = k + 1;
        }
        assert(hs.take(hs.len() as int) =~= hs);
        out
    }

    /// The holdings of the given lots, a later lot of a commodity
    /// replacing an earlier one.
    pub fn from_lots(lots: Vec<Lot>) -> (r: Holdings)
        ensures
            r@ == hold_set_all(lots@.map_values(|l: Lot| l@)),
    {
        let ghost ls = lots@.map_values(|l: Lot| l@);
        let ghost orig = lots@;
        let total = lots.len();
        let mut todo = lots;
        let mut qs: Vec<Lot> = Vec::new();
        let mut k: usize = 0;
        assert(ls.take(0) =~= Seq::<LotView>::empty());
        assert(qs@.map_values(|l: Lot| l@) =~= Seq::<LotView>::empty());
        while todo.len() > 0
            invariant
                total == orig.len(),
                ls == orig.map_values(|l: Lot| l@),
                ls.len() == orig.len(),
                k + todo@.len() == orig.len(),
                todo@ == orig.subrange(k as int, orig.len() as int),
                qs@.map_values(|l: Lot| l@) == hold_set_all(ls.take(k as int)),
                lots_distinct(qs@.map_values(|l: Lot| l@)),
            decreases todo@.len(),
        {
            let l = todo.remove(0);
            assert(l == orig[k as int]);
            assert(ls[k as int] == l@);
            assert(ls.take(k + 1).drop_last() =~= ls.take(k as int));
            assert(ls.take(k + 1).last() == l@);
            let ghost hs = qs@.map_values(|l: Lot| l@);
            proof {
                lemma_lot_pos(hs, l@.0.0);
            }
            match Holdings::find(&qs, &l.qty.s) {
                Some(i) => {
                    qs.set(i, l);
                    proof {
                        let h = qs@.map_values(|l: Lot| l@);
                        assert(h =~= hs.update(i as int, ls[k as int]));
                        assert forall|a: int, b: int| 0 <= a < b < h.len() implies h[a].0.0 != h[b].0.0 by {
                            if a != i && b != i {
                                assert(h[a] == hs[a] && h[b] == hs[b]);
                            } else if a == i {
                                assert(h[b] == hs[b]);
                            } else {
                                assert(h[a] == hs[a]);
                            }
                        }
                    }
                },
                None => {
                    qs.push(l);
                    proof {
                        let h = qs@.map_values(|l: Lot| l@);
                        assert(h =~= hs.push(ls[k as int]));
                        assert forall|a: int, b: int| 0 <= a < b < h.len() implies h[a].0.0 != h[b].0.0 by {
                            assert(h[a] == hs[a]);
                            if b < hs.len() {
                                assert(h[b] == hs[b]);
                            }
                        }
                    }
                },
            }
            k = k + 1;
        }
        assert(ls.take(ls.len() as int) =~= ls);
        Holdings { qs }
    }

    /// Adds `lot` (`holdings + lot`): merged into the lot of its
    /// commodity, or added; zero lots are then dropped. `None` where a
    /// step overflows.
    pub fn add_lot_checked(self, lot: Lot) -> (r: Option<Holdings>)
        ensures
            r is Some <==> hold_merge(self@, lot@, false) is Some,
            r matches Some(h) ==> h@ == drop_zero_lots(hold_merge(self@, lot@, false).unwrap()),
    {
        proof {
            use_type_invariant(&self);
        }
        let ghost hs = self@;
        let Holdings { qs: mut qs } = self;
        if !Holdings::merge_into(&mut qs, lot, false) {
            return None;
        }
        let r = Holdings::remove_zero(qs);
        proof {
            lemma_drop_zero_lots(hold_merge(hs, lot@, false).unwrap());
        }
        Some(Holdings { qs: r })
    }

    /// `holdings + lot` (see `add_lot_checked`).
    pub fn add_lot(self, lot: Lot) -> (r: Holdings)
        requires
            hold_merge(self@, lot@, false) is Some,
        ensures
            r@ == drop_zero_lots(hold_merge(self@, lot@, false).unwrap()),
    {
        match self.add_lot_checked(lot) {
            Some(h) => h,
            None => Holdings::new(),
        }
    }

    /// Merges every lot of `rhs` (added, or subtracted when `sub`), then
    /// drops zero lots; `None` where a step overflows.
    pub fn merge_checked(self, rhs: Holdings, sub: bool) -> (r: Option<Holdings>)
        ensures
            r is Some <==> hold_merge_all(self@, rhs@, sub) is Some,
            r matches Some(h) ==> h@ == drop_zero_lots(hold_merge_all(self@, rhs@, sub).unwrap()),
    {
        proof {
            use_type_invariant(&self);
        }
        let ghost hs = self@;
        let ghost rs = rhs@;
        let Holdings { qs: mut qs } = self;
        let Holdings { qs: rqs } = rhs;
        let ghost rorig = rqs@;
        let total = rqs.len();
        let mut todo = rqs;
        let mut k: usize = 0;
        assert(rs.take(0) =~= Seq::<LotView>::empty());
        while todo.len() > 0
            invariant
                total == rorig.len(),
                rs == rorig.map_values(|l: Lot| l@),
                rs.len() == rorig.len(),
                hs == self@,
                rs == rhs@,
                k + todo@.len() == rorig.len(),
                todo@ == rorig.subrange(k as int, rorig.len() as int),
                hold_merge_all(hs, rs.take(k as int), sub) == Some(qs@.map_values(|l: Lot| l@)),
                lots_distinct(qs@.map_values(|l: Lot| l@)),
            decreases todo@.len(),
        {
            let l = todo.remove(0);
            assert(l == rorig[k as int]);
            assert(rs[k as int] == l@);
            assert(rs.take(k + 1).drop_last() =~= rs.take(k as int));
            assert(rs.take(k + 1).last() == l@);
            if !Holdings::merge_into(&mut qs, l, sub) {
                proof {
                    lemma_merge_all_stops(hs, rs, sub, k + 1);
                }
                return None;
            }
            k = k + 1;
        }
        assert(rs.take(rs.len() as int) =~= rs);
        let r = Holdings::remove_zero(qs);
        proof {
            lemma_drop_zero_lots(hold_merge_all(hs, rs, sub).unwrap());
        }
        Some(Holdings { qs: r })
    }

    /// `self += rhs`: each lot of `rhs` merged into the lot of its
    /// commodity or added, then zero lots dropped.
    pub fn add(self, rhs: Holdings) -> (r: Holdings)
        requires
            hold_merge_all(self@, rhs@, false) is Some,
        ensures
            r@ == drop_zero_lots(hold_merge_all(self@, rhs@, false).unwrap()),
    {
        match self.merge_checked(rhs, false) {
            Some(h) => h,
            None => Holdings::new(),
        }
    }

    /// `self -= rhs`: each lot of `rhs` subtracted from the lot of its
    /// commodity (a commodity not held is left out), then zero lots
    /// dropped.
    pub fn sub(self, rhs: Holdings) -> (r: Holdings)
        requires
            hold_merge_all(self@, rhs@, true) is Some,
        ensures
            r@ == drop_zero_lots(hold_merge_all(self@, rhs@, true).unwrap()),
    {
        match self.merge_checked(rhs, true) {
            Some(h) => h,
            None => Holdings::new(),
        }
    }

    /// The holdings of the lots added one after the other, or `None`
    /// where a step overflows.
    pub fn sum_checked(lots: Vec<Lot>) -> (r: Option<Holdings>)
        ensures
            r is Some <==> hold_sum(Seq::empty(), lots@.map_values(|l: Lot| l@)) is Some,
            r matches Some(h) ==> Some(h@) == hold_sum(Seq::empty(), lots@.map_values(|l: Lot| l@)),
    {
        let ghost ls = lots@.map_values(|l: Lot| l@);
        let ghost orig = lots@;
        let total = lots.len();
        let mut todo = lots;
        let mut h = Holdings::new();
        let mut k: usize = 0;
        assert(ls.take(0) =~= Seq::<LotView>::empty());
        while todo.len() > 0
            invariant
                total == orig.len(),
                orig == lots@,
                ls == orig.map_values(|l: Lot| l@),
                ls.len() == orig.len(),
                k + todo@.len() == orig.len(),
                todo@ == orig.subrange(k as int, orig.len() as int),
                hold_sum(Seq::empty(), ls.take(k as int)) == Some(h@),
            decreases todo@.len(),
        {
            let l = todo.remove(0);
            assert(l == orig[k as int]);
            assert(ls[k as int] == l@);
            assert(ls.take(k + 1).drop_last() =~= ls.take(k as int));
            assert(ls.take(k + 1).last() == l@);
            h = match h.add_lot_checked(l) {
                Some(h2) => h2,
                None => {
                    proof {
                        lemma_sum_stops(Seq::empty(), ls, k + 1);
                    }
                    return None;
                },
            };
            k = k + 1;
        }
        assert(ls.take(ls.len() as int) =~= ls);
        Some(h)
    }

    /// A second holding with the same lots.
    pub fn duplicate(&self) -> (r: Holdings)
        ensures
            r@ == self@,
    {
        proof {
            use_type_invariant(self);
        }
        let mut qs: Vec<Lot> = Vec::new();
        let mut i: usize = 0;
        while i < self.qs.len()
            invariant
                i <= self.qs@.len(),
                qs@.len() == i,
                forall|k: int| 0 <= k < i ==> #[trigger] qs@[k]@ == self.qs@[k]@,
            decreases self.qs@.len() - i,
        {
            qs.push(self.qs[i].duplicate());
            i = i + 1;
        }
        assert(qs@.map_values(|l: Lot| l@) =~= self@);
        Holdings { qs }
    }

    /// Whether both hold equal lots of the same commodities (see
    /// `hold_same`).
    pub fn same_as(&self, o: &Holdings) -> (r: bool)
        ensures
            r == hold_same(self@, o@),
    {
        let ghost a = self@;
        let ghost b = o@;
        if self.qs.len() != o.qs.len() {
            return false;
        }
        let mut i: usize = 0;
        while i < self.qs.len()
            invariant
                i <= self.qs@.len(),
                a == self@,
                b == o@,
                a == self.qs@.map_values(|l: Lot| l@),
                b == o.qs@.map_values(|l: Lot| l@),
                a.len() == b.len(),
                forall|k: int| #![trigger a[k]]
                    0 <= k < i ==> lot_pos(b, a[k].0.0) >= 0 && lot_same(a[k], b[lot_pos(b, a[k].0.0)]),
            decreases self.qs@.len() - i,
        {
            let x = &self.qs[i];
            assert(a[i as int] == x@);
            match Holdings::find(&o.qs, &x.qty.s) {
                Some(j) => {
                    let y = &o.qs[j];
                    assert(b[j as int] == y@);
                    if !(x.qty.q.eq_value(&y.qty.q) && x.m_uprice.same_as(&y.m_uprice) && x.h_uprice.same_as(
                        &y.h_uprice,
                    ) && x.b_uprice.same_as(&y.b_uprice)) {
                        return false;
                    }
                },
                None => {
                    return false;
                },
            }
            i = i + 1;
        }
        true
    }

    /// Whether every lot has a zero quantity.
    pub fn is_zero(&self) -> (r: bool)
        ensures
            r == forall|i: int| 0 <= i < self@.len() ==> #[trigger] self@[i].0.1.mant() == 0,
    {
        let mut i: usize = 0;
        while i < self.qs.len()
            invariant
                i <= self.qs@.len(),
                self@ == self.qs@.map_values(|l: Lot| l@),
                forall|k: int| 0 <= k < i ==> #[trigger] self@[k].0.1.mant() == 0,
            decreases self.qs@.len() - i,
        {
            assert(self@[i as int] == self.qs@[i as int]@);
            if !self.qs[i].qty.q.is_zero() {
                assert(self@[i as int].0.1.mant() != 0);
                return false;
            }
            i = i + 1;
        }
        true
    }

    /// The number of commodities held.
    pub fn arity(&self) -> (r: usize)
        ensures
            r == self@.len(),
    {
        self.qs.len()
    }

    /// The quantities held, one per commodity.
    pub fn quantities(&self) -> (r: Vec<Quantity>)
        ensures
            r@.len() == self@.len(),
            forall|i: int| 0 <= i < r@.len() ==> #[trigger] r@[i]@ == self@[i].0,
    {
        let mut r: Vec<Quantity> = Vec::new();
        let mut i: usize = 0;
        while i < self.qs.len()
            invariant
                i <= self.qs@.len(),
                self@ == self.qs@.map_values(|l: Lot| l@),
                r@.len() == i,
                forall|k: int| 0 <= k < i ==> #[trigger] r@[k]@ == self@[k].0,
            decreases self.qs@.len() - i,
        {
            assert(self@[i as int] == self.qs@[i as int]@);
            r.push(self.qs[i].qty.duplicate());
            i = i + 1;
        }
        r
    }

    /// The value of the holdings under valuation `v`: the values of the
    /// lots added up (see `hold_value`); `None` where a step overflows.
    pub fn valued_in_checked(&self, v: Valuation) -> (r: Option<Amount>)
        ensures
            r is Some <==> hold_value(self@, v) is Some,
            r matches Some(a) ==> Some(a.entries()) == hold_value(self@, v),
    {
        let ghost hs = self@;
        let mut acc = Amount::new();
        assert(acc.entries() =~= Seq::<Entry>::empty());
        assert(hs.take(0) =~= Seq::<LotView>::empty());
        let mut i: usize = 0;
        while i < self.qs.len()
            invariant
                i <= self.qs@.len(),
                hs == self@,
                hs == self.qs@.map_values(|l: Lot| l@),
                hs.len() == self.qs@.len(),
                hold_value(hs.take(i as int), v) == Some(acc.entries()),
            decreases self.qs@.len() - i,
        {
            assert(hs[i as int] == self.qs@[i as int]@);
            assert(hs.take(i + 1).drop_last() =~= hs.take(i as int));
            assert(hs.take(i + 1).last() == hs[i as int]);
            let x = match self.qs[i].valued_in_checked(v) {
                Some(x) => x,
                None => {
                    proof {
                        lemma_value_stops(hs, v, i + 1);
                    }
                    return None;
                },
            };
            acc = match acc.checked_apply(&x, false) {
                Some(a) => a,
                None => {
                    proof {
                        lemma_value_stops(hs, v, i + 1);
                    }
                    return None;
                },
            };
            i = i + 1;
        }
        assert(hs.take(hs.len() as int) =~= hs);
        Some(acc)
    }

    /// The value of the lot of commodity `s` under valuation `v`
    /// (nothing when `s` is not held), where no product overflows.
    pub fn svalued_in(&self, s: &Symbol, v: Valuation) -> (r: Amount)
        requires
            lot_pos(self@, s@) >= 0 ==> lot_value(self@[lot_pos(self@, s@)], v) is Some,
        ensures
            lot_pos(self@, s@) < 0 ==> r.entries().len() == 0,
            lot_pos(self@, s@) >= 0 ==> Some(r.entries()) == lot_value(self@[lot_pos(self@, s@)], v),
    {
        match self.svalued_in_checked(s, v) {
            Some(a) => a,
            None => Amount::new(),
        }
    }

    /// The value of the lot of commodity `s` under valuation `v` (nothing
    /// when `s` is not held); `None` where a product overflows.
    pub fn svalued_in_checked(&self, s: &Symbol, v: Valuation) -> (r: Option<Amount>)
        ensures
            lot_pos(self@, s@) < 0 ==> (r matches Some(a) && a.entries().len() == 0),
            lot_pos(self@, s@) >= 0 ==> (r is Some <==> lot_value(self@[lot_pos(self@, s@)], v) is Some),
            lot_pos(self@, s@) >= 0 ==> (r matches Some(a) ==> a.entries() == lot_value(
                self@[lot_pos(self@, s@)],
                v,
            ).unwrap()),
    {
        match Holdings::find(&self.qs, s) {
            Some(i) => {
                assert(self@[i as int] == self.qs@[i as int]@);
                self.qs[i].valued_in_checked(v)
            },
            None => Some(Amount::new()),
        }
    }
}

proof fn lemma_merge_all_stops(hs: Seq<LotView>, ls: Seq<LotView>, sub: bool, n: int)
    requires
        0 <= n <= ls.len(),
        hold_merge_all(hs, ls.take(n), sub) is None,
    ensures
        hold_merge_all(hs, ls, sub) is None,
    decreases ls.len(),
{
    if n < ls.len() {
        let init = ls.drop_last();
        assert(init.take(n) =~= ls.take(n));
        lemma_merge_all_stops(hs, init, sub, n);
    } else {
        assert(ls.take(n) =~= ls);
    }
}

proof fn lemma_sum_stops(hs: Seq<LotView>, ls: Seq<LotView>, n: int)
    requires
        0 <= n <= ls.len(),
        hold_sum(hs, ls.take(n)) is None,
    ensures
        hold_sum(hs, ls) is None,
    decreases ls.len(),
{
    if n < ls.len() {
        let init = ls.drop_last();
        assert(init.take(n) =~= ls.take(n));
        lemma_sum_stops(hs, init, n);
    } else {
        assert(ls.take(n) =~= ls);
    }
}

proof fn lemma_value_stops(hs: Seq<LotView>, v: Valuation, n: int)
    requires
        0 <= n <= hs.len(),
        hold_value(hs.take(n), v) is None,
    ensures
        hold_value(hs, v) is None,
    decreases hs.len(),
{
    if n < hs.len() {
        let init = hs.drop_last();
        assert(init.take(n) =~= hs.take(n));
        lemma_value_stops(init, v, n);
    } else {
        assert(hs.take(n) =~= hs);
    }
}


/// The gain of a value `cur` over a book value `basis`, both amounts:
/// `(cur - basis) / basis` where both are a single quantity of one same
/// commodity, and nothing otherwise (`Some(None)`). `None` where the
/// arithmetic fails (an overflow, or a zero basis).
pub open spec fn gain_of(cur: Seq<Entry>, basis: Seq<Entry>) -> Option<Option<Dec>> {
    if cur.len() == 1 && basis.len() == 1 && cur[0].0 == basis[0].0 {
        match decimal_sub(cur[0].1, basis[0].1) {
            Some(d) => match decimal_div(d, basis[0].1) {
                Some(g) => Some(Some(g)),
                None => None,
            },
            None => None,
        }
    } else {
        Some(None)
    }
}

/// The gain of holdings valued in `v` over their book value (see
/// `gain_of`); `None` where a step fails.
pub open spec fn hold_gain(hs: Seq<LotView>, v: Valuation) -> Option<Option<Dec>> {
    match (hold_value(hs, v), hold_value(hs, Valuation::Basis)) {
        (Some(c), Some(b)) => gain_of(c, b),
        _ => None,
    }
}

/// The gain of the lot of commodity `s` valued in `v` over its book value,
/// with the commodity the values are in; nothing when `s` is not held or
/// the values are not single quantities of one commodity. `None` where a
/// step fails.
pub open spec fn hold_sgain(hs: Seq<LotView>, s: Seq<char>, v: Valuation) -> Option<
    Option<(Dec, Seq<char>)>,
> {
    let i = lot_pos(hs, s);
    if i < 0 {
        Some(None)
    } else {
        match (lot_value(hs[i], v), lot_value(hs[i], Valuation::Basis)) {
            (Some(c), Some(b)) => match gain_of(c, b) {
                Some(Some(g)) => Some(Some((g, b[0].0))),
                Some(None) => Some(None),
                None => None,
            },
            _ => None,
        }
    }
}

/// The detail of commodity `s` of the holdings `hs` valued under `pv`:
/// the gain of `s` over its book value in percent (times 100), where that
/// gain is measured in another commodity than `s` itself, and the values
/// of `s` under `pv` in the commodities other than `s`. `None` where the
/// arithmetic fails.
pub open spec fn detail_spec(hs: Seq<LotView>, s: Seq<char>, pv: Valuation) -> Option<(Option<Dec>, Seq<Entry>)> {
    let vals = if lot_pos(hs, s) < 0 {
        Some(Seq::<Entry>::empty())
    } else {
        lot_value(hs[lot_pos(hs, s)], pv)
    };
    let pct = match hold_sgain(hs, s, pv) {
        None => None,
        Some(None) => Some(None),
        Some(Some((g, c))) => if c == s {
            Some(None)
        } else {
            match decimal_mul(g, Dec::int_spec(100)) {
                Some(x) => Some(Some(x)),
                None => None,
            }
        },
    };
    match (pct, vals) {
        (Some(p), Some(v)) => Some((p, v.filter(|e: Entry| e.0 != s))),
        _ => None,
    }
}

/// The quantities of `qs` in commodities other than `s`, in order.
fn other_commodities(qs: Vec<Quantity>, s: &Symbol) -> (r: Vec<Quantity>)
    ensures
        views_of(r@) == views_of(qs@).filter(|e: Entry| e.0 != s@),
{
    let ghost f = |e: Entry| e.0 != s@;
    let mut r: Vec<Quantity> = Vec::new();
    let mut i: usize = 0;
    while i < qs.len()
        invariant
            i <= qs@.len(),
            f == (|e: Entry| e.0 != s@),
            views_of(r@) == views_of(qs@).take(i as int).filter(f),
        decreases qs@.len() - i,
    {
        let ghost before = views_of(qs@).take(i as int);
        assert(views_of(qs@).take(i + 1) =~= before.push(qs@[i as int]@));
        proof {
            reveal(Seq::filter);
            assert(before.push(qs@[i as int]@).drop_last() =~= before);
        }
        if !qs[i].s.same(s) {
            let ghost r0 = r@;
            r.push(qs[i].duplicate());
            assert(views_of(r@) =~= views_of(r0).push(qs@[i as int]@));
        }
        i = i + 1;
    }
    assert(views_of(qs@).take(qs@.len() as int) =~= views_of(qs@));
    r
}

impl Holdings {
    /// The detail of commodity `s` valued under `pv` (see `detail_spec`):
    /// the gain in percent, and the values in other commodities.
    pub fn detail(&self, s: &Symbol, pv: Valuation) -> (r: Option<(Option<Dec>, Vec<Quantity>)>)
        ensures
            match (r, detail_spec(self@, s@, pv)) {
                (None, None) => true,
                (Some((p, v)), Some((q, w))) => p == q && views_of(v@) == w,
                _ => false,
            },
    {
        let pct = match self.sgain_checked(s, pv) {
            None => {
                return None;
            },
            Some(None) => None,
            Some(Some((g, c))) => {
                if c.same(s) {
                    None
                } else {
                    let h = Dec::new(100, 0);
                    proof {
                        Dec::lemma_int(h, 100);
                    }
                    match g.checked_mul(&h) {
                        Some(x) => Some(x),
                        None => {
                            return None;
                        },
                    }
                }
            },
        };
        let vals = match self.svalued_in_checked(s, pv) {
            None => {
                return None;
            },
            Some(a) => a,
        };
        let qs = vals.quantities();
        assert(views_of(qs@) =~= vals.entries());
        Some((pct, other_commodities(qs, s)))
    }
}

/// The gain of `cur` over `basis` (see `gain_of`): `Some(None)` where
/// there is no gain to compute, `None` where the arithmetic fails.
fn gain_checked_of(cur: &Amount, basis: &Amount) -> (r: Option<Option<Dec>>)
    ensures
        r == gain_of(cur.entries(), basis.entries()),
{
    let c = cur.to_quantity();
    let b = basis.to_quantity();
    match (b, c) {
        (Some(b), Some(c)) => {
            if b.s.same(&c.s) {
                match c.q.checked_sub(&b.q) {
                    Some(d) => match d.checked_div(&b.q) {
                        Some(g) => Some(Some(g)),
                        None => None,
                    },
                    None => None,
                }
            } else {
                Some(None)
            }
        },
        _ => Some(None),
    }
}

impl Holdings {
    /// The gain of the holdings valued in `v` over their book value:
    /// `(current - basis) / basis` when both values are a single quantity
    /// of one commodity, `Some(None)` otherwise; `None` where the
    /// arithmetic fails (an overflow or a zero book value).
    pub fn gain_checked(&self, v: Valuation) -> (r: Option<Option<Dec>>)
        ensures
            r == hold_gain(self@, v),
    {
        let cur = match self.valued_in_checked(v) {
            Some(c) => c,
            None => return None,
        };
        let basis = match self.valued_in_checked(Valuation::Basis) {
            Some(b) => b,
            None => return None,
        };
        match gain_checked_of(&cur, &basis) {
            Some(_) => Some(self.gain(v)),
            None => None,
        }
    }

    /// The gain of the holdings valued in `v` over their book value:
    /// `(current - basis) / basis` when both values are a single quantity
    /// of one commodity, and `None` otherwise.
    pub fn gain(&self, v: Valuation) -> (r: Option<Dec>)
        requires
            hold_gain(self@, v) is Some,
        ensures
            r == hold_gain(self@, v).unwrap(),
    {
        let cur = self.valued_in_checked(v).unwrap();
        let basis = self.valued_in_checked(Valuation::Basis).unwrap();
        gain_checked_of(&cur, &basis).unwrap()
    }

    /// The gain of the lot of commodity `s` valued in `v` over its book
    /// value, with the commodity the values are in; `Some(None)` when `s`
    /// is not held or the values are not single quantities of one
    /// commodity; `None` where the arithmetic fails.
    pub fn sgain_checked(&self, s: &Symbol, v: Valuation) -> (r: Option<Option<(Dec, Symbol)>>)
        ensures
            r is Some <==> hold_sgain(self@, s@, v) is Some,
            r matches Some(x) ==> (x is Some <==> hold_sgain(self@, s@, v).unwrap() is Some),
            r matches Some(Some((g, c))) ==> hold_sgain(self@, s@, v) == Some(Some((g, c@))),
    {
        let cur = match self.svalued_in_checked(s, v) {
            Some(c) => c,
            None => return None,
        };
        let basis = match self.svalued_in_checked(s, Valuation::Basis) {
            Some(b) => b,
            None => return None,
        };
        match gain_checked_of(&cur, &basis) {
            Some(_) => Some(self.sgain(s, v)),
            None => None,
        }
    }

    /// The gain of the lot of commodity `s` valued in `v` over its book
    /// value, with the commodity the values are in; `None` when `s` is
    /// not held or the values are not single quantities of one commodity.
    pub fn sgain(&self, s: &Symbol, v: Valuation) -> (r: Option<(Dec, Symbol)>)
        requires
            hold_sgain(self@, s@, v) is Some,
        ensures
            r is Some <==> hold_sgain(self@, s@, v).unwrap() is Some,
            r matches Some((g, c)) ==> hold_sgain(self@, s@, v) == Some(Some((g, c@))),
    {
        let cur = self.svalued_in_checked(s, v).unwrap();
        let basis = self.svalued_in_checked(s, Valuation::Basis).unwrap();
        let b = basis.to_quantity();
        match gain_checked_of(&cur, &basis).unwrap() {
            Some(g) => Some((g, b.unwrap().s)),
            None => None,
        }
    }
}

} // verus!
