//! A quantity of one commodity, such as `$ 150.25` or `10 AAPL`.

use vstd::prelude::*;

use crate::amount::{add_one, amount_of, upd_ok, Amount, Entry};
use crate::decimal::{decimal_div, decimal_mul, Dec};
use crate::symbol::Symbol;

verus! {

/// A quantity of a specific commodity.
#[derive(Clone, Debug, PartialEq)]
pub struct Quantity {
    /// amount of this commodity
    pub q: Dec,
    /// commodity symbol
    pub s: Symbol,
}

impl View for Quantity {
    type V = Entry;

    /// The symbol's name and the number.
    open spec fn view(&self) -> Entry {
        (self.s@, self.q)
    }
}

impl Quantity {
    /// A second quantity equal to this one.
    pub fn duplicate(&self) -> (r: Quantity)
        ensures
            r == *self,
    {
        Quantity { q: self.q, s: self.s.duplicate() }
    }

    /// The amount holding just this quantity (nothing when it is zero).
    pub fn to_amount(self) -> (r: Amount)
        ensures
            r.entries() == amount_of(self.s@, self.q),
    {
        Amount::from_quantity(self)
    }

    /// The quantity in absolute value.
    pub fn abs(self) -> (r: Quantity)
        ensures
            r == (Quantity { q: self.q.abs_spec(), s: self.s }),
    {
        Quantity { q: self.q.abs(), s: self.s }
    }

    /// One unit of the same commodity.
    pub fn to_unit(&self) -> (r: Quantity)
        ensures
            r == (Quantity { q: Dec::one_spec(), s: self.s }),
    {
        Quantity { q: Dec::one(), s: self.s.duplicate() }
    }

    /// The opposite quantity.
    pub fn neg(self) -> (r: Quantity)
        ensures
            r == (Quantity { q: self.q.neg_spec(), s: self.s }),
    {
        Quantity { q: self.q.neg(), s: self.s }
    }

    /// `self + rhs`: an amount, with one commodity when both share
    /// theirs, two otherwise; zero quantities are removed.
    pub fn add(self, rhs: Quantity) -> (r: Amount)
        requires
            upd_ok(amount_of(self.s@, self.q), rhs.s@, rhs.q, false),
        ensures
            r.entries() == add_one(amount_of(self.s@, self.q), rhs.s@, rhs.q, false),
    {
        let mut a = self.to_amount();
        a.add_quantity(&rhs);
        a
    }

    /// `self - rhs`, as an amount.
    pub fn sub(self, rhs: Quantity) -> (r: Amount)
        requires
            upd_ok(amount_of(self.s@, self.q), rhs.s@, rhs.q, true),
        ensures
            r.entries() == add_one(amount_of(self.s@, self.q), rhs.s@, rhs.q, true),
    {
        let mut a = self.to_amount();
        a.sub_quantity(&rhs);
        a
    }

    /// `self / d`, in the same commodity.
    pub fn div(self, d: Dec) -> (r: Quantity)
        requires
            decimal_div(self.q, d) is Some,
        ensures
            r == (Quantity { q: decimal_div(self.q, d).unwrap(), s: self.s }),
    {
        let q = match self.q.checked_div(&d) {
            Some(x) => x,
            None => self.q,
        };
        Quantity { q, s: self.s }
    }

    /// `self * m`, in the same commodity.
    pub fn mul(self, m: Dec) -> (r: Quantity)
        requires
            decimal_mul(self.q, m) is Some,
        ensures
            r == (Quantity { q: decimal_mul(self.q, m).unwrap(), s: self.s }),
    {
        let q = match self.q.checked_mul(&m) {
            Some(x) => x,
            None => self.q,
        };
        Quantity { q, s: self.s }
    }

    /// `self / d`, in the same commodity, or `None` where the division
    /// has no result (a zero divisor, an overflow).
    pub fn checked_div(self, d: Dec) -> (r: Option<Quantity>)
        ensures
            match decimal_div(self.q, d) {
                Some(x) => r == Some(Quantity { q: x, s: self.s }),
                None => r is None,
            },
    {
        match self.q.checked_div(&d) {
            Some(x) => Some(Quantity { q: x, s: self.s }),
            None => None,
        }
    }

    /// `self * m`, in the same commodity, or `None` where the product
    /// overflows.
    pub fn checked_mul(self, m: Dec) -> (r: Option<Quantity>)
        ensures
            match decimal_mul(self.q, m) {
                Some(x) => r == Some(Quantity { q: x, s: self.s }),
                None => r is None,
            },
    {
        match self.q.checked_mul(&m) {
            Some(x) => Some(Quantity { q: x, s: self.s }),
            None => None,
        }
    }

    /// `self / rhs`: the ratio of the numbers, in the commodity of `self`.
    pub fn div_quantity(self, rhs: &Quantity) -> (r: Quantity)
        requires
            decimal_div(self.q, rhs.q) is Some,
        ensures
            r == (Quantity { q: decimal_div(self.q, rhs.q).unwrap(), s: self.s }),
    {
        self.div(rhs.q)
    }

    /// `self * rhs`: the product of the numbers, in the commodity of `self`.
    pub fn mul_quantity(self, rhs: &Quantity) -> (r: Quantity)
        requires
            decimal_mul(self.q, rhs.q) is Some,
        ensures
            r == (Quantity { q: decimal_mul(self.q, rhs.q).unwrap(), s: self.s }),
    {
        self.mul(rhs.q)
    }

    /// `self /= d`.
    pub fn div_assign(&mut self, d: Dec)
        requires
            decimal_div(old(self).q, d) is Some,
        ensures
            *final(self) == (Quantity { q: decimal_div(old(self).q, d).unwrap(), s: old(self).s }),
    {
        if let Some(x) = self.q.checked_div(&d) {
            self.q = x;
        }
    }

    /// `self *= m`.
    pub fn mul_assign(&mut self, m: Dec)
        requires
            decimal_mul(old(self).q, m) is Some,
        ensures
            *final(self) == (Quantity { q: decimal_mul(old(self).q, m).unwrap(), s: old(self).s }),
    {
        if let Some(x) = self.q.checked_mul(&m) {
            self.q = x;
        }
    }

    /// The quantities this quantity is made of: itself.
    pub fn quantities(&self) -> (r: Vec<Quantity>)
        ensures
            r@ == seq![*self],
    {
        let mut v = Vec::new();
        v.push(self.duplicate());
        assert(v@ =~= seq![*self]);
        v
    }
}

} // verus!
