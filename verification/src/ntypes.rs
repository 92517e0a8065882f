//! What the balances of accounts are made of: values that can be added
//! and subtracted and tested for zero, and values that can be priced.

use vstd::prelude::*;

use crate::amount::{amount_same, apply_all, apply_all_ok, drop_zeros, Amount, Entry};
use crate::holdings::{drop_zero_lots, hold_merge_all, hold_same, hold_value, Holdings, LotView};
use crate::report::Valuation;

verus! {

/// A value that can be added to and subtracted from another of its kind,
/// with an empty value and a test for zero.
pub trait Arithmetic: View + Sized {
    /// Whether the value `v` counts as zero.
    spec fn zero_spec(v: Self::V) -> bool;

    /// The empty value.
    spec fn empty_spec() -> Self::V;

    /// Whether `a` and `b` are equal values (as `==` compares them, which
    /// may be looser than being the same representation).
    spec fn same_spec(a: Self::V, b: Self::V) -> bool;

    /// `a + b`, or `a - b` when `sub`; `None` where the arithmetic
    /// overflows.
    spec fn merge_spec(a: Self::V, b: Self::V, sub: bool) -> Option<Self::V>;

    /// The empty value is zero.
    proof fn lemma_empty_is_zero()
        ensures
            Self::zero_spec(Self::empty_spec()),
    ;

    /// The empty value.
    fn empty() -> (r: Self)
        ensures
            r@ == Self::empty_spec(),
    ;

    /// Whether the value counts as zero.
    fn test_zero(&self) -> (r: bool)
        ensures
            r == Self::zero_spec(self@),
    ;

    /// `self + rhs`, or `self - rhs` when `sub`; `None` on overflow.
    fn merged(self, rhs: Self, sub: bool) -> (r: Option<Self>)
        ensures
            r is Some <==> Self::merge_spec(self@, rhs@, sub) is Some,
            r matches Some(x) ==> Self::merge_spec(self@, rhs@, sub) == Some(x@),
    ;

    /// A second value equal to this one.
    fn copy_of(&self) -> (r: Self)
        ensures
            r@ == self@,
    ;

    /// Whether the two values are equal (see `same_spec`).
    fn same_value(&self, o: &Self) -> (r: bool)
        ensures
            r == Self::same_spec(self@, o@),
    ;
}

/// A value that can be priced under a valuation.
pub trait Valuable: View + Sized {
    /// The price of `v` under valuation `val`; `None` where the arithmetic
    /// overflows.
    spec fn value_spec(v: Self::V, val: Valuation) -> Option<Seq<Entry>>;

    /// The price under valuation `val`; `None` on overflow.
    fn valued(&self, val: Valuation) -> (r: Option<Amount>)
        ensures
            r is Some <==> Self::value_spec(self@, val) is Some,
            r matches Some(a) ==> Self::value_spec(self@, val) == Some(a@),
    ;
}

impl Arithmetic for Amount {
    open spec fn zero_spec(v: Seq<Entry>) -> bool {
        forall|i: int| 0 <= i < v.len() ==> #[trigger] v[i].1.mant() == 0
    }

    open spec fn empty_spec() -> Seq<Entry> {
        Seq::empty()
    }

    open spec fn same_spec(a: Seq<Entry>, b: Seq<Entry>) -> bool {
        amount_same(a, b)
    }

    open spec fn merge_spec(a: Seq<Entry>, b: Seq<Entry>, sub: bool) -> Option<Seq<Entry>> {
        if apply_all_ok(a, b, sub) {
            Some(drop_zeros(apply_all(a, b, sub)))
        } else {
            None
        }
    }

    proof fn lemma_empty_is_zero() {
    }

    fn empty() -> (r: Amount) {
        let r = Amount::new();
        assert(r@ =~= Seq::<Entry>::empty());
        r
    }

    fn test_zero(&self) -> (r: bool) {
        self.is_zero()
    }

    fn merged(self, rhs: Amount, sub: bool) -> (r: Option<Amount>) {
        self.checked_apply(&rhs, sub)
    }

    fn copy_of(&self) -> (r: Amount) {
        self.duplicate()
    }

    fn same_value(&self, o: &Amount) -> (r: bool) {
        self.same_as(o)
    }
}

impl Valuable for Amount {
    /// An amount is its own price, whatever the valuation.
    open spec fn value_spec(v: Seq<Entry>, val: Valuation) -> Option<Seq<Entry>> {
        Some(v)
    }

    fn valued(&self, val: Valuation) -> (r: Option<Amount>) {
        Some(self.duplicate())
    }
}

impl Arithmetic for Holdings {
    open spec fn zero_spec(v: Seq<LotView>) -> bool {
        forall|i: int| 0 <= i < v.len() ==> #[trigger] v[i].0.1.mant() == 0
    }

    open spec fn empty_spec() -> Seq<LotView> {
        Seq::empty()
    }

    open spec fn same_spec(a: Seq<LotView>, b: Seq<LotView>) -> bool {
        hold_same(a, b)
    }

    open spec fn merge_spec(a: Seq<LotView>, b: Seq<LotView>, sub: bool) -> Option<Seq<LotView>> {
        match hold_merge_all(a, b, sub) {
            Some(h) => Some(drop_zero_lots(h)),
            None => None,
        }
    }

    proof fn lemma_empty_is_zero() {
    }

    fn empty() -> (r: Holdings) {
        Holdings::new()
    }

    fn test_zero(&self) -> (r: bool) {
        self.is_zero()
    }

    fn merged(self, rhs: Holdings, sub: bool) -> (r: Option<Holdings>) {
        self.merge_checked(rhs, sub)
    }

    fn copy_of(&self) -> (r: Holdings) {
        self.duplicate()
    }

    fn same_value(&self, o: &Holdings) -> (r: bool) {
        self.same_as(o)
    }
}

impl Valuable for Holdings {
    open spec fn value_spec(v: Seq<LotView>, val: Valuation) -> Option<Seq<Entry>> {
        hold_value(v, val)
    }

    fn valued(&self, val: Valuation) -> (r: Option<Amount>) {
        self.valued_in_checked(val)
    }
}

} // verus!
