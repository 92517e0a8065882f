//! Amounts: quantities of several commodities held together, such as
//! `$ 10, 5 EUR`.

use vstd::prelude::*;

use crate::decimal::{decimal_add, decimal_div, decimal_mul, decimal_sub, Dec};
use crate::quantity::Quantity;
use crate::symbol::Symbol;

verus! {

/// One entry of an amount: a commodity symbol and its quantity.
pub type Entry = (Seq<char>, Dec);

/// No symbol occurs twice.
pub open spec fn keys_distinct(es: Seq<Entry>) -> bool {
    forall|i: int, j: int| 0 <= i < j < es.len() ==> es[i].0 != es[j].0
}

/// Position of symbol `s` in `es`, or `-1`.
pub open spec fn find_sym(es: Seq<Entry>, s: Seq<char>) -> int
    decreases es.len(),
{
    if es.len() == 0 {
        -1
    } else if es.last().0 == s {
        es.len() - 1
    } else {
        find_sym(es.drop_last(), s)
    }
}

/// The quantity of symbol `s` in `es`, zero when absent.
pub open spec fn value_or_zero(es: Seq<Entry>, s: Seq<char>) -> Dec {
    let i = find_sym(es, s);
    if i >= 0 {
        es[i].1
    } else {
        Dec::zero_spec()
    }
}

/// `v + d`, or `v - d` when `sub`, as `rust_decimal` computes it.
pub open spec fn combine(v: Dec, d: Dec, sub: bool) -> Option<Dec> {
    if sub {
        decimal_sub(v, d)
    } else {
        decimal_add(v, d)
    }
}

/// Adding (or subtracting) `d` to the entry of `s` does not overflow.
pub open spec fn upd_ok(es: Seq<Entry>, s: Seq<char>, d: Dec, sub: bool) -> bool {
    combine(value_or_zero(es, s), d, sub) is Some
}

/// The entries after adding (or subtracting) `d` to the entry of `s`;
/// a symbol not present yet gets a new entry at the end, computed from
/// zero.
pub open spec fn upd(es: Seq<Entry>, s: Seq<char>, d: Dec, sub: bool) -> Seq<Entry> {
    let i = find_sym(es, s);
    if i >= 0 {
        es.update(i, (s, combine(es[i].1, d, sub).unwrap()))
    } else {
        es.push((s, combine(Dec::zero_spec(), d, sub).unwrap()))
    }
}

/// The entries whose quantity is not zero, in order.
pub open spec fn drop_zeros(es: Seq<Entry>) -> Seq<Entry>
    decreases es.len(),
{
    if es.len() == 0 {
        es
    } else {
        let r = drop_zeros(es.drop_last());
        if es.last().1.mant() == 0 {
            r
        } else {
            r.push(es.last())
        }
    }
}

/// Adds (or subtracts) every entry of `rs` in turn.
pub open spec fn apply_all(es: Seq<Entry>, rs: Seq<Entry>, sub: bool) -> Seq<Entry>
    decreases rs.len(),
{
    if rs.len() == 0 {
        es
    } else {
        upd(apply_all(es, rs.drop_last(), sub), rs.last().0, rs.last().1, sub)
    }
}

/// None of the steps of `apply_all` overflows.
pub open spec fn apply_all_ok(es: Seq<Entry>, rs: Seq<Entry>, sub: bool) -> bool
    decreases rs.len(),
{
    if rs.len() == 0 {
        true
    } else {
        apply_all_ok(es, rs.drop_last(), sub) && upd_ok(
            apply_all(es, rs.drop_last(), sub),
            rs.last().0,
            rs.last().1,
            sub,
        )
    }
}

pub proof fn lemma_find_sym(es: Seq<Entry>, s: Seq<char>)
    ensures
        -1 <= find_sym(es, s) < es.len(),
        find_sym(es, s) >= 0 ==> es[find_sym(es, s)].0 == s,
        find_sym(es, s) == -1 ==> forall|i: int| 0 <= i < es.len() ==> es[i].0 != s,
        keys_distinct(es) ==> forall|i: int| 0 <= i < es.len() && es[i].0 == s ==> i == find_sym(es, s),
    decreases es.len(),
{
    if es.len() > 0 {
        let t = es.drop_last();
        lemma_find_sym(t, s);
        assert(forall|i: int| 0 <= i < t.len() ==> es[i] == t[i]);
    }
}

proof fn lemma_find_unique(es: Seq<Entry>, t: Seq<char>, j: int)
    requires
        keys_distinct(es),
        0 <= j < es.len(),
        es[j].0 == t,
    ensures
        find_sym(es, t) == j,
{
    lemma_find_sym(es, t);
}

proof fn lemma_find_absent(es: Seq<Entry>, t: Seq<char>)
    requires
        forall|k: int| 0 <= k < es.len() ==> es[k].0 != t,
    ensures
        find_sym(es, t) == -1,
{
    lemma_find_sym(es, t);
    if find_sym(es, t) >= 0 {
        assert(es[find_sym(es, t)].0 == t);
    }
}

/// The quantity of `t` after removing zeros: unchanged, except that a
/// zero becomes the plain zero.
proof fn lemma_value_drop_zeros(es: Seq<Entry>, t: Seq<char>)
    requires
        keys_distinct(es),
    ensures
        value_or_zero(drop_zeros(es), t) == (if value_or_zero(es, t).mant() == 0 {
            Dec::zero_spec()
        } else {
            value_or_zero(es, t)
        }),
    decreases es.len(),
{
    Dec::lemma_consts();
    lemma_find_sym(es, t);
    if es.len() > 0 {
        let init = es.drop_last();
        let e = es.last();
        assert(forall|i: int| 0 <= i < init.len() ==> init[i] == es[i]);
        assert(keys_distinct(init));
        lemma_value_drop_zeros(init, t);
        let r = drop_zeros(init);
        lemma_find_sym(init, t);
        lemma_find_sym(r, t);
        if e.0 == t {
            assert(forall|k: int| 0 <= k < init.len() ==> init[k].0 != t) by {
                assert forall|k: int| 0 <= k < init.len() implies init[k].0 != t by {
                    assert(es[k].0 != es[es.len() - 1].0);
                }
            }
            lemma_find_absent(init, t);
            if e.1.mant() != 0 {
                let rp = r.push(e);
                assert(rp.last() == e);
            }
        } else {
            if e.1.mant() != 0 {
                let rp = r.push(e);
                assert(rp.drop_last() =~= r);
                assert(rp.last() == e);
            }
        }
    }
}

/// The quantity of `t` after one update of `s`.
proof fn lemma_value_upd(es: Seq<Entry>, s: Seq<char>, d: Dec, sub: bool, t: Seq<char>)
    requires
        keys_distinct(es),
    ensures
        value_or_zero(upd(es, s, d, sub), t) == (if t == s {
            combine(value_or_zero(es, s), d, sub).unwrap()
        } else {
            value_or_zero(es, t)
        }),
{
    lemma_find_sym(es, s);
    lemma_find_sym(es, t);
    lemma_upd_distinct(es, s, d, sub);
    let u = upd(es, s, d, sub);
    let i = find_sym(es, s);
    if i >= 0 {
        assert(u[i].0 == s);
        if t == s {
            lemma_find_unique(u, s, i);
        } else {
            let j = find_sym(es, t);
            if j >= 0 {
                assert(u[j] == es[j]);
                lemma_find_unique(u, t, j);
            } else {
                assert forall|k: int| 0 <= k < u.len() implies u[k].0 != t by {
                    if k != i {
                        assert(u[k] == es[k]);
                    }
                }
                lemma_find_absent(u, t);
            }
        }
    } else {
        assert(u.last().0 == s);
        assert(u[es.len() as int].0 == s);
        if t == s {
            lemma_find_unique(u, s, es.len() as int);
        } else {
            let j = find_sym(es, t);
            if j >= 0 {
                assert(u[j] == es[j]);
                lemma_find_unique(u, t, j);
            } else {
                assert forall|k: int| 0 <= k < u.len() implies u[k].0 != t by {
                    if k < es.len() {
                        assert(u[k] == es[k]);
                    }
                }
                lemma_find_absent(u, t);
            }
        }
    }
}

/// Adding (or subtracting) a quantity of commodity `s` changes the
/// quantity of `s` alone, by that quantity; a quantity that becomes
/// zero is dropped, and no zero quantity is left.
pub proof fn lemma_add_one_values(es: Seq<Entry>, s: Seq<char>, d: Dec, sub: bool, t: Seq<char>)
    requires
        keys_distinct(es),
    ensures
        keys_distinct(add_one(es, s, d, sub)),
        forall|i: int| 0 <= i < add_one(es, s, d, sub).len() ==> #[trigger] add_one(es, s, d, sub)[i].1.mant() != 0,
        value_or_zero(add_one(es, s, d, sub), t) == ({
            let v = if t == s {
                combine(value_or_zero(es, s), d, sub).unwrap()
            } else {
                value_or_zero(es, t)
            };
            if v.mant() == 0 {
                Dec::zero_spec()
            } else {
                v
            }
        }),
{
    lemma_upd_distinct(es, s, d, sub);
    lemma_value_upd(es, s, d, sub, t);
    lemma_value_drop_zeros(upd(es, s, d, sub), t);
    lemma_drop_zeros(upd(es, s, d, sub));
}

pub proof fn lemma_upd_distinct(es: Seq<Entry>, s: Seq<char>, d: Dec, sub: bool)
    requires
        keys_distinct(es),
    ensures
        keys_distinct(upd(es, s, d, sub)),
        upd(es, s, d, sub).len() == es.len() || upd(es, s, d, sub).len() == es.len() + 1,
{
    lemma_find_sym(es, s);
}

pub proof fn lemma_drop_zeros(es: Seq<Entry>)
    ensures
        forall|i: int| 0 <= i < drop_zeros(es).len() ==> #[trigger] drop_zeros(es)[i].1.mant() != 0,
        forall|i: int| 0 <= i < drop_zeros(es).len() ==> es.contains(#[trigger] drop_zeros(es)[i]),
        keys_distinct(es) ==> keys_distinct(drop_zeros(es)),
        drop_zeros(es).len() <= es.len(),
    decreases es.len(),
{
    if es.len() > 0 {
        let t = es.drop_last();
        lemma_drop_zeros(t);
        let r = drop_zeros(t);
        assert forall|i: int| 0 <= i < r.len() implies es.contains(#[trigger] r[i]) by {
            let k = choose|k: int| 0 <= k < t.len() && t[k] == r[i];
            assert(es[k] == r[i]);
        }
        if es.last().1.mant() != 0 {
            assert(es[es.len() - 1] == es.last());
            if keys_distinct(es) {
                assert forall|i: int| 0 <= i < r.len() implies r[i].0 != es.last().0 by {
                    let k = choose|k: int| 0 <= k < t.len() && t[k] == r[i];
                    assert(es[k] == r[i]);
                }
            }
        }
    }
}

pub proof fn lemma_apply_all_distinct(es: Seq<Entry>, rs: Seq<Entry>, sub: bool)
    requires
        keys_distinct(es),
    ensures
        keys_distinct(apply_all(es, rs, sub)),
    decreases rs.len(),
{
    if rs.len() > 0 {
        lemma_apply_all_distinct(es, rs.drop_last(), sub);
        lemma_upd_distinct(apply_all(es, rs.drop_last(), sub), rs.last().0, rs.last().1, sub);
    }
}

/// The entries of the amount made of quantity `q` of `s`: none when
/// `q` is zero.
pub open spec fn amount_of(s: Seq<char>, q: Dec) -> Seq<Entry> {
    if q.mant() == 0 {
        Seq::empty()
    } else {
        seq![(s, q)]
    }
}

/// Adding (or subtracting) one quantity, then removing zeros.
pub open spec fn add_one(es: Seq<Entry>, s: Seq<char>, d: Dec, sub: bool) -> Seq<Entry> {
    drop_zeros(upd(es, s, d, sub))
}

/// `v * d`, or `v / d` when `div`.
pub open spec fn scale_opt(v: Dec, d: Dec, div: bool) -> Option<Dec> {
    if div {
        decimal_div(v, d)
    } else {
        decimal_mul(v, d)
    }
}

pub open spec fn scale_one(v: Dec, d: Dec, div: bool) -> Dec {
    scale_opt(v, d, div).unwrap()
}

/// Every quantity multiplied (or divided) by `d`.
pub open spec fn scale_all(es: Seq<Entry>, d: Dec, div: bool) -> Seq<Entry> {
    es.map_values(|e: Entry| (e.0, scale_one(e.1, d, div)))
}

/// None of the products (or quotients) overflows or divides by zero.
pub open spec fn scale_all_ok(es: Seq<Entry>, d: Dec, div: bool) -> bool {
    forall|i: int| 0 <= i < es.len() ==> #[trigger] scale_opt(es[i].1, d, div) is Some
}

/// The views of a sequence of quantities.
pub open spec fn views_of(qs: Seq<Quantity>) -> Seq<Entry> {
    qs.map_values(|q: Quantity| q@)
}

/// Adds the quantities `rs` one after the other, removing zeros after
/// each step.
pub open spec fn sum_all(es: Seq<Entry>, rs: Seq<Entry>) -> Seq<Entry>
    decreases rs.len(),
{
    if rs.len() == 0 {
        es
    } else {
        add_one(sum_all(es, rs.drop_last()), rs.last().0, rs.last().1, false)
    }
}

/// None of the steps of `sum_all` overflows.
pub open spec fn sum_ok(es: Seq<Entry>, rs: Seq<Entry>) -> bool
    decreases rs.len(),
{
    if rs.len() == 0 {
        true
    } else {
        sum_ok(es, rs.drop_last()) && upd_ok(sum_all(es, rs.drop_last()), rs.last().0, rs.last().1, false)
    }
}

proof fn lemma_apply_all_ok_prefix(es: Seq<Entry>, rs: Seq<Entry>, sub: bool, n: int)
    requires
        apply_all_ok(es, rs, sub),
        0 <= n <= rs.len(),
    ensures
        apply_all_ok(es, rs.take(n), sub),
    decreases rs.len(),
{
    if n < rs.len() {
        assert(rs.drop_last().take(n) =~= rs.take(n));
        lemma_apply_all_ok_prefix(es, rs.drop_last(), sub, n);
    } else {
        assert(rs.take(n) =~= rs);
    }
}

pub proof fn lemma_sum_ok_prefix(es: Seq<Entry>, rs: Seq<Entry>, n: int)
    requires
        sum_ok(es, rs),
        0 <= n <= rs.len(),
    ensures
        sum_ok(es, rs.take(n)),
    decreases rs.len(),
{
    if n < rs.len() {
        assert(rs.drop_last().take(n) =~= rs.take(n));
        lemma_sum_ok_prefix(es, rs.drop_last(), n);
    } else {
        assert(rs.take(n) =~= rs);
    }
}

/// The entries of a vector of symbols and quantities, by name.
pub open spec fn entries_of(qs: Seq<(Symbol, Dec)>) -> Seq<Entry> {
    qs.map_values(|e: (Symbol, Dec)| (e.0@, e.1))
}

proof fn lemma_entries_of(qs: Seq<(Symbol, Dec)>)
    ensures
        entries_of(qs).len() == qs.len(),
        forall|k: int| 0 <= k < qs.len() ==> #[trigger] entries_of(qs)[k] == (qs[k].0@, qs[k].1),
{
}

/// The position of `s` in `qs`.
fn position(qs: &Vec<(Symbol, Dec)>, s: &Symbol) -> (r: Option<usize>)
    requires
        keys_distinct(entries_of(qs@)),
    ensures
        match r {
            Some(i) => i == find_sym(entries_of(qs@), s@) && i < qs@.len(),
            None => find_sym(entries_of(qs@), s@) == -1,
        },
{
    let ghost es = entries_of(qs@);
    proof {
        lemma_entries_of(qs@);
        lemma_find_sym(es, s@);
    }
    let mut i: usize = 0;
    while i < qs.len()
        invariant
            i <= qs@.len(),
            es == entries_of(qs@),
            es.len() == qs@.len(),
            forall|k: int| 0 <= k < qs@.len() ==> #[trigger] es[k] == (qs@[k].0@, qs@[k].1),
            keys_distinct(es),
            -1 <= find_sym(es, s@) < es.len(),
            find_sym(es, s@) >= 0 ==> es[find_sym(es, s@)].0 == s@,
            forall|k: int| 0 <= k < es.len() && es[k].0 == s@ ==> k == find_sym(es, s@),
            forall|k: int| 0 <= k < i ==> es[k].0 != s@,
        decreases qs@.len() - i,
    {
        if qs[i].0.same(s) {
            assert(es[i as int].0 == s@);
            return Some(i);
        }
        i = i + 1;
    }
    proof {
        if find_sym(es, s@) >= 0 {
            assert(es[find_sym(es, s@)].0 == s@);
        }
    }
    None
}

/// The entries without those whose quantity is zero, in order.
fn without_zeros(qs: Vec<(Symbol, Dec)>) -> (r: Vec<(Symbol, Dec)>)
    ensures
        entries_of(r@) == drop_zeros(entries_of(qs@)),
{
    let ghost es = entries_of(qs@);
    proof {
        lemma_entries_of(qs@);
    }
    let mut r: Vec<(Symbol, Dec)> = Vec::new();
    let mut i: usize = 0;
    while i < qs.len()
        invariant
            i <= qs@.len(),
            es == entries_of(qs@),
            es.len() == qs@.len(),
            forall|k: int| 0 <= k < qs@.len() ==> #[trigger] es[k] == (qs@[k].0@, qs@[k].1),
            entries_of(r@) == drop_zeros(es.take(i as int)),
        decreases qs@.len() - i,
    {
        assert(es.take(i + 1).drop_last() =~= es.take(i as int));
        assert(es.take(i + 1).last() == es[i as int]);
        if !qs[i].1.is_zero() {
            let ghost before = entries_of(r@);
            r.push((qs[i].0.duplicate(), qs[i].1));
            assert(entries_of(r@) =~= before.push(es[i as int]));
        }
        i = i + 1;
    }
    assert(es.take(qs@.len() as int) =~= es);
    r
}

/// Adds (or subtracts) `d` to the quantity of `s`, without removing
/// zeros.
fn apply(qs: &mut Vec<(Symbol, Dec)>, s: &Symbol, d: &Dec, sub: bool)
    requires
        keys_distinct(entries_of(old(qs)@)),
        upd_ok(entries_of(old(qs)@), s@, *d, sub),
    ensures
        entries_of(final(qs)@) == upd(entries_of(old(qs)@), s@, *d, sub),
        keys_distinct(entries_of(final(qs)@)),
{
    let ghost es = entries_of(qs@);
    proof {
        lemma_entries_of(qs@);
        lemma_find_sym(es, s@);
        lemma_upd_distinct(es, s@, *d, sub);
    }
    match position(qs, s) {
        Some(i) => {
            let v = qs[i].1;
            let nv = if sub {
                v.checked_sub(d)
            } else {
                v.checked_add(d)
            };
            let nv = match nv {
                Some(x) => x,
                None => {
                    return ;
                },
            };
            let sym = qs[i].0.duplicate();
            qs.set(i, (sym, nv));
            proof {
                lemma_entries_of(qs@);
            }
            assert(entries_of(qs@) =~= es.update(i as int, (s@, nv)));
        },
        None => {
            let z = Dec::zero();
            let nv = if sub {
                z.checked_sub(d)
            } else {
                z.checked_add(d)
            };
            let nv = match nv {
                Some(x) => x,
                None => {
                    return ;
                },
            };
            qs.push((s.duplicate(), nv));
            proof {
                lemma_entries_of(qs@);
            }
            assert(entries_of(qs@) =~= es.push((s@, nv)));
        },
    }
}

/// Whether adding (or subtracting) `d` to the quantity of `s` stays in
/// range.
fn can_apply(qs: &Vec<(Symbol, Dec)>, s: &Symbol, d: &Dec, sub: bool) -> (r: bool)
    requires
        keys_distinct(entries_of(qs@)),
    ensures
        r == upd_ok(entries_of(qs@), s@, *d, sub),
{
    proof {
        lemma_entries_of(qs@);
        lemma_find_sym(entries_of(qs@), s@);
    }
    let v = match position(qs, s) {
        Some(i) => qs[i].1,
        None => Dec::zero(),
    };
    let r = if sub {
        v.checked_sub(d)
    } else {
        v.checked_add(d)
    };
    r.is_some()
}

/// A collection of quantities of different commodities, at most one
/// quantity per commodity.
#[derive(Debug, PartialEq)]
pub struct Amount {
    qs: Vec<(Symbol, Dec)>,
}

/// Both hold the same commodities with the same quantities, in whatever
/// order (`1.0` equals `1.00`).
pub open spec fn amount_same(a: Seq<Entry>, b: Seq<Entry>) -> bool {
    &&& a.len() == b.len()
    &&& forall|i: int|
        #![trigger a[i]]
        0 <= i < a.len() ==> find_sym(b, a[i].0) >= 0 && a[i].1.value_eq(b[find_sym(b, a[i].0)].1)
}

impl View for Amount {
    type V = Seq<Entry>;

    open spec fn view(&self) -> Seq<Entry> {
        self.entries()
    }
}

impl Amount {
    /// The entries, in order: each commodity symbol with its quantity.
    pub closed spec fn entries(&self) -> Seq<Entry> {
        entries_of(self.qs@)
    }

    #[verifier::type_invariant]
    closed spec fn inv(&self) -> bool {
        keys_distinct(self.entries())
    }

    /// The amount with no commodity.
    pub fn new() -> (r: Amount)
        ensures
            r.entries().len() == 0,
    {
        let r = Amount { qs: Vec::new() };
        assert(r.entries() =~= Seq::<Entry>::empty());
        r
    }

    /// Whether both amounts hold the same commodities with the same
    /// quantities (see `amount_same`).
    pub fn same_as(&self, o: &Amount) -> (r: bool)
        ensures
            r == amount_same(self.entries(), o.entries()),
    {
        proof {
            use_type_invariant(self);
            use_type_invariant(o);
            lemma_entries_of(self.qs@);
            lemma_entries_of(o.qs@);
        }
        let ghost a = self.entries();
        let ghost b = o.entries();
        if self.qs.len() != o.qs.len() {
            return false;
        }
        let mut i: usize = 0;
        while i < self.qs.len()
            invariant
                i <= self.qs@.len(),
                a == self.entries(),
                b == o.entries(),
                a == entries_of(self.qs@),
                b == entries_of(o.qs@),
                a.len() == self.qs@.len(),
                b.len() == o.qs@.len(),
                keys_distinct(b),
                forall|k: int| 0 <= k < a.len() ==> #[trigger] a[k] == (self.qs@[k].0@, self.qs@[k].1),
                forall|k: int| #![trigger a[k]]
                    0 <= k < i ==> find_sym(b, a[k].0) >= 0 && a[k].1.value_eq(b[find_sym(b, a[k].0)].1),
            decreases self.qs@.len() - i,
        {
            assert(a[i as int] == (self.qs@[i as int].0@, self.qs@[i as int].1));
            match position(&o.qs, &self.qs[i].0) {
                Some(j) => {
                    proof {
                        lemma_find_sym(b, a[i as int].0);
                        assert(b[j as int] == (o.qs@[j as int].0@, o.qs@[j as int].1));
                    }
                    if !self.qs[i].1.eq_value(&o.qs[j].1) {
                        return false;
                    }
                },
                None => {
                    return false;
                },
            }
            i = i + 1;
        }
        true
    }

    /// A second amount with the same entries.
    pub fn duplicate(&self) -> (r: Amount)
        ensures
            r.entries() == self.entries(),
    {
        proof {
            use_type_invariant(self);
            lemma_entries_of(self.qs@);
        }
        let mut qs: Vec<(Symbol, Dec)> = Vec::new();
        let mut i: usize = 0;
        while i < self.qs.len()
            invariant
                i <= self.qs@.len(),
                qs@.len() == i,
                forall|k: int| 0 <= k < i ==> #[trigger] qs@[k] == self.qs@[k],
            decreases self.qs@.len() - i,
        {
            qs.push((self.qs[i].0.duplicate(), self.qs[i].1));
            i = i + 1;
        }
        assert(qs@ =~= self.qs@);
        Amount { qs }
    }

    /// The amount made of one quantity; nothing when that quantity is zero.
    pub fn from_quantity(q: Quantity) -> (r: Amount)
        ensures
            r.entries() == amount_of(q.s@, q.q),
    {
        if q.q.is_zero() {
            return Amount::new();
        }
        let mut qs: Vec<(Symbol, Dec)> = Vec::new();
        qs.push((q.s, q.q));
        let r = Amount { qs };
        assert(r.entries() =~= seq![(q.s@, q.q)]);
        r
    }

    /// The amount `q` of commodity `s`; nothing when `q` is zero.
    pub fn from_qs(q: Dec, s: Symbol) -> (r: Amount)
        ensures
            r.entries() == amount_of(s@, q),
    {
        Amount::from_quantity(Quantity { q, s })
    }

    /// The single quantity of an amount made of exactly one commodity.
    pub fn to_quantity(&self) -> (r: Option<Quantity>)
        ensures
            self.entries().len() == 1 <==> r is Some,
            r matches Some(q) ==> q@ == self.entries()[0],
    {
        proof {
            lemma_entries_of(self.qs@);
        }
        if self.qs.len() != 1 {
            return None;
        }
        Some(Quantity { q: self.qs[0].1, s: self.qs[0].0.duplicate() })
    }

    /// Whether every quantity of the amount is zero (in particular, when
    /// it holds no commodity).
    pub fn is_zero(&self) -> (r: bool)
        ensures
            r == forall|i: int| 0 <= i < self.entries().len() ==> #[trigger] self.entries()[i].1.mant() == 0,
    {
        proof {
            lemma_entries_of(self.qs@);
        }
        let mut i: usize = 0;
        while i < self.qs.len()
            invariant
                i <= self.qs@.len(),
                self.entries().len() == self.qs@.len(),
                forall|k: int| 0 <= k < self.qs@.len() ==> #[trigger] self.entries()[k] == (self.qs@[k].0@, self.qs@[k].1),
                forall|k: int| 0 <= k < i ==> #[trigger] self.entries()[k].1.mant() == 0,
            decreases self.qs@.len() - i,
        {
            if !self.qs[i].1.is_zero() {
                assert(self.entries()[i as int].1.mant() != 0);
                return false;
            }
            i = i + 1;
        }
        true
    }

    /// The number of commodities in the amount.
    pub fn arity(&self) -> (r: usize)
        ensures
            r == self.entries().len(),
    {
        proof {
            lemma_entries_of(self.qs@);
        }
        self.qs.len()
    }

    /// The quantities of the amount, one per commodity, in order.
    pub fn quantities(&self) -> (r: Vec<Quantity>)
        ensures
            r@.len() == self.entries().len(),
            forall|i: int| 0 <= i < r@.len() ==> #[trigger] r@[i]@ == self.entries()[i],
    {
        proof {
            lemma_entries_of(self.qs@);
        }
        let mut r: Vec<Quantity> = Vec::new();
        let mut i: usize = 0;
        while i < self.qs.len()
            invariant
                i <= self.qs@.len(),
                r@.len() == i,
                self.entries().len() == self.qs@.len(),
                forall|k: int| 0 <= k < self.qs@.len() ==> #[trigger] self.entries()[k] == (self.qs@[k].0@, self.qs@[k].1),
                forall|k: int| 0 <= k < i ==> #[trigger] r@[k]@ == self.entries()[k],
            decreases self.qs@.len() - i,
        {
            r.push(Quantity { q: self.qs[i].1, s: self.qs[i].0.duplicate() });
            i = i + 1;
        }
        r
    }

    /// Adds a quantity (`amount + q`): the quantity of its commodity
    /// grows by `q` (a new commodity starts from zero), then every
    /// commodity whose quantity is zero is removed.
    pub fn add_quantity(&mut self, q: &Quantity)
        requires
            upd_ok(old(self).entries(), q.s@, q.q, false),
        ensures
            final(self).entries() == add_one(old(self).entries(), q.s@, q.q, false),
    {
        self.apply_quantity(q, false)
    }

    /// The quantity of commodity `s` in the amount, zero when absent.
    pub fn value_of(&self, s: &Symbol) -> (r: Dec)
        ensures
            r == value_or_zero(self.entries(), s@),
    {
        proof {
            use_type_invariant(self);
            lemma_entries_of(self.qs@);
        }
        match position(&self.qs, s) {
            Some(i) => self.qs[i].1,
            None => Dec::zero(),
        }
    }

    /// Adds a quantity as `add_quantity` does when that does not
    /// overflow, and tells whether it did; otherwise the amount stays
    /// as it was.
    pub fn try_add_quantity(&mut self, q: &Quantity) -> (ok: bool)
        ensures
            ok == upd_ok(old(self).entries(), q.s@, q.q, false),
            ok ==> final(self).entries() == add_one(old(self).entries(), q.s@, q.q, false),
            !ok ==> final(self).entries() == old(self).entries(),
    {
        let v = self.value_of(&q.s);
        if v.checked_add(&q.q).is_some() {
            self.add_quantity(q);
            true
        } else {
            false
        }
    }

    /// Subtracts a quantity (`amount - q`), then removes zero quantities.
    pub fn sub_quantity(&mut self, q: &Quantity)
        requires
            upd_ok(old(self).entries(), q.s@, q.q, true),
        ensures
            final(self).entries() == add_one(old(self).entries(), q.s@, q.q, true),
    {
        self.apply_quantity(q, true)
    }

    fn apply_quantity(&mut self, q: &Quantity, sub: bool)
        requires
            upd_ok(old(self).entries(), q.s@, q.q, sub),
        ensures
            final(self).entries() == add_one(old(self).entries(), q.s@, q.q, sub),
    {
        proof {
            use_type_invariant(&*self);
        }
        let mut qs = Vec::new();
        std::mem::swap(&mut qs, &mut self.qs);
        let ghost es = entries_of(qs@);
        apply(&mut qs, &q.s, &q.q, sub);
        let r = without_zeros(qs);
        proof {
            lemma_upd_distinct(es, q.s@, q.q, sub);
            lemma_drop_zeros(upd(es, q.s@, q.q, sub));
        }
        self.qs = r;
    }

    /// Adds every quantity of `rhs` (`amount += rhs`), then removes zero
    /// quantities.
    pub fn add_assign(&mut self, rhs: &Amount)
        requires
            apply_all_ok(old(self).entries(), rhs.entries(), false),
        ensures
            final(self).entries() == drop_zeros(apply_all(old(self).entries(), rhs.entries(), false)),
    {
        self.apply_amount(rhs, false)
    }

    /// Subtracts every quantity of `rhs` (`amount -= rhs`), then removes
    /// zero quantities.
    pub fn sub_assign(&mut self, rhs: &Amount)
        requires
            apply_all_ok(old(self).entries(), rhs.entries(), true),
        ensures
            final(self).entries() == drop_zeros(apply_all(old(self).entries(), rhs.entries(), true)),
    {
        self.apply_amount(rhs, true)
    }

    fn apply_amount(&mut self, rhs: &Amount, sub: bool)
        requires
            apply_all_ok(old(self).entries(), rhs.entries(), sub),
        ensures
            final(self).entries() == drop_zeros(apply_all(old(self).entries(), rhs.entries(), sub)),
    {
        proof {
            use_type_invariant(&*self);
            lemma_entries_of(rhs.qs@);
        }
        let mut qs = Vec::new();
        std::mem::swap(&mut qs, &mut self.qs);
        let ghost es = entries_of(qs@);
        let ghost rs = rhs.entries();
        let mut i: usize = 0;
        while i < rhs.qs.len()
            invariant
                i <= rhs.qs@.len(),
                rs == rhs.entries(),
                rs.len() == rhs.qs@.len(),
                forall|k: int| 0 <= k < rhs.qs@.len() ==> #[trigger] rs[k] == (rhs.qs@[k].0@, rhs.qs@[k].1),
                apply_all_ok(es, rs, sub),
                keys_distinct(es),
                entries_of(qs@) == apply_all(es, rs.take(i as int), sub),
                keys_distinct(entries_of(qs@)),
            decreases rhs.qs@.len() - i,
        {
            proof {
                lemma_apply_all_ok_prefix(es, rs, sub, i + 1);
                assert(rs.take(i + 1).drop_last() =~= rs.take(i as int));
                assert(rs.take(i + 1).last() == rs[i as int]);
            }
            apply(&mut qs, &rhs.qs[i].0, &rhs.qs[i].1, sub);
            i = i + 1;
        }
        assert(rs.take(rs.len() as int) =~= rs);
        let r = without_zeros(qs);
        proof {
            lemma_drop_zeros(apply_all(es, rs, sub));
        }
        self.qs = r;
    }

    /// `self + rhs`.
    pub fn add(self, rhs: &Amount) -> (r: Amount)
        requires
            apply_all_ok(self.entries(), rhs.entries(), false),
        ensures
            r.entries() == drop_zeros(apply_all(self.entries(), rhs.entries(), false)),
    {
        let mut a = self;
        a.add_assign(rhs);
        a
    }

    /// `self - rhs`.
    pub fn sub(self, rhs: &Amount) -> (r: Amount)
        requires
            apply_all_ok(self.entries(), rhs.entries(), true),
        ensures
            r.entries() == drop_zeros(apply_all(self.entries(), rhs.entries(), true)),
    {
        let mut a = self;
        a.sub_assign(rhs);
        a
    }

    /// Multiplies (or divides) every quantity by `d`; zero quantities
    /// stay.
    fn scale_by(&mut self, d: &Dec, div: bool)
        requires
            scale_all_ok(old(self).entries(), *d, div),
        ensures
            final(self).entries() == scale_all(old(self).entries(), *d, div),
    {
        proof {
            use_type_invariant(&*self);
        }
        let mut qs = Vec::new();
        std::mem::swap(&mut qs, &mut self.qs);
        let ghost es = entries_of(qs@);
        let ghost orig = qs@;
        proof {
            lemma_entries_of(qs@);
        }
        let mut i: usize = 0;
        while i < qs.len()
            invariant
                i <= qs@.len(),
                qs@.len() == orig.len(),
                es == entries_of(orig),
                es.len() == orig.len(),
                forall|k: int| 0 <= k < orig.len() ==> #[trigger] es[k] == (orig[k].0@, orig[k].1),
                scale_all_ok(es, *d, div),
                forall|k: int| i <= k < orig.len() ==> #[trigger] qs@[k] == orig[k],
                forall|k: int|
                    #![trigger qs@[k]]
                    0 <= k < i ==> (qs@[k].0 == orig[k].0 && qs@[k].1 == scale_one(es[k].1, *d, div)),
            decreases qs@.len() - i,
        {
            let v = qs[i].1;
            let nv = if div {
                v.checked_div(d)
            } else {
                v.checked_mul(d)
            };
            assert(nv == scale_opt(es[i as int].1, *d, div));
            let nv = match nv {
                Some(x) => x,
                None => {
                    return ;
                },
            };
            let sym = qs[i].0.duplicate();
            let ghost before = qs@;
            qs.set(i, (sym, nv));
            assert(qs@[i as int].0 == orig[i as int].0);
            assert(qs@[i as int].1 == scale_one(es[i as int].1, *d, div));
            assert(forall|k: int| 0 <= k < i ==> qs@[k] == before[k]);
            i = i + 1;
        }
        proof {
            lemma_entries_of(qs@);
            assert(entries_of(qs@) =~= scale_all(es, *d, div));
        }
        self.qs = qs;
    }

    /// Divides every quantity by `d` (`amount /= d`).
    pub fn div_assign(&mut self, d: Dec)
        requires
            scale_all_ok(old(self).entries(), d, true),
        ensures
            final(self).entries() == scale_all(old(self).entries(), d, true),
    {
        self.scale_by(&d, true)
    }

    /// Multiplies every quantity by `m` (`amount *= m`).
    pub fn mul_assign(&mut self, m: Dec)
        requires
            scale_all_ok(old(self).entries(), m, false),
        ensures
            final(self).entries() == scale_all(old(self).entries(), m, false),
    {
        self.scale_by(&m, false)
    }

    /// `self / d`.
    pub fn div(self, d: Dec) -> (r: Amount)
        requires
            scale_all_ok(self.entries(), d, true),
        ensures
            r.entries() == scale_all(self.entries(), d, true),
    {
        let mut a = self;
        a.scale_by(&d, true);
        a
    }

    /// `self * m`.
    pub fn mul(self, m: Dec) -> (r: Amount)
        requires
            scale_all_ok(self.entries(), m, false),
        ensures
            r.entries() == scale_all(self.entries(), m, false),
    {
        let mut a = self;
        a.scale_by(&m, false);
        a
    }

    /// `self * d` (or `self / d` when `div`), or `None` where a quantity
    /// overflows (or the divisor is zero).
    pub fn checked_scale(self, d: Dec, div: bool) -> (r: Option<Amount>)
        ensures
            r is Some <==> scale_all_ok(self.entries(), d, div),
            r matches Some(a) ==> a.entries() == scale_all(self.entries(), d, div),
    {
        proof {
            lemma_entries_of(self.qs@);
        }
        let mut i: usize = 0;
        while i < self.qs.len()
            invariant
                i <= self.qs@.len(),
                self.entries().len() == self.qs@.len(),
                forall|k: int| 0 <= k < self.qs@.len() ==> #[trigger] self.entries()[k] == (self.qs@[k].0@, self.qs@[k].1),
                forall|k: int| 0 <= k < i ==> #[trigger] scale_opt(self.entries()[k].1, d, div) is Some,
            decreases self.qs@.len() - i,
        {
            let ok = if div {
                self.qs[i].1.checked_div(&d).is_some()
            } else {
                self.qs[i].1.checked_mul(&d).is_some()
            };
            if !ok {
                assert(scale_opt(self.entries()[i as int].1, d, div) is None);
                return None;
            }
            i = i + 1;
        }
        let mut a = self;
        a.scale_by(&d, div);
        Some(a)
    }

    /// `self + rhs` (or `self - rhs` when `sub`), or `None` where a
    /// quantity overflows.
    pub fn checked_apply(self, rhs: &Amount, sub: bool) -> (r: Option<Amount>)
        ensures
            r is Some <==> apply_all_ok(self.entries(), rhs.entries(), sub),
            r matches Some(a) ==> a.entries() == drop_zeros(apply_all(self.entries(), rhs.entries(), sub)),
    {
        proof {
            use_type_invariant(&self);
            use_type_invariant(rhs);
            lemma_entries_of(rhs.qs@);
        }
        let ghost es = self.entries();
        let ghost rs = rhs.entries();
        let Amount { qs: mut qs } = self;
        let mut i: usize = 0;
        while i < rhs.qs.len()
            invariant
                i <= rhs.qs@.len(),
                es == self.entries(),
                rs == rhs.entries(),
                rs.len() == rhs.qs@.len(),
                forall|k: int| 0 <= k < rhs.qs@.len() ==> #[trigger] rs[k] == (rhs.qs@[k].0@, rhs.qs@[k].1),
                keys_distinct(es),
                apply_all_ok(es, rs.take(i as int), sub),
                entries_of(qs@) == apply_all(es, rs.take(i as int), sub),
                keys_distinct(entries_of(qs@)),
            decreases rhs.qs@.len() - i,
        {
            assert(rs.take(i + 1).drop_last() =~= rs.take(i as int));
            assert(rs.take(i + 1).last() == rs[i as int]);
            if !can_apply(&qs, &rhs.qs[i].0, &rhs.qs[i].1, sub) {
                proof {
                    if apply_all_ok(es, rs, sub) {
                        lemma_apply_all_ok_prefix(es, rs, sub, i + 1);
                    }
                }
                return None;
            }
            apply(&mut qs, &rhs.qs[i].0, &rhs.qs[i].1, sub);
            i = i + 1;
        }
        assert(rs.take(rs.len() as int) =~= rs);
        let r = without_zeros(qs);
        proof {
            lemma_drop_zeros(apply_all(es, rs, sub));
        }
        Some(Amount { qs: r })
    }

    /// The sum of the quantities, added in order to the empty amount.
    pub fn sum(qs: &Vec<Quantity>) -> (r: Amount)
        requires
            sum_ok(Seq::empty(), views_of(qs@)),
        ensures
            r.entries() == sum_all(Seq::empty(), views_of(qs@)),
    {
        let ghost vs = views_of(qs@);
        let mut a = Amount::new();
        assert(a.entries() =~= Seq::<Entry>::empty());
        let mut i: usize = 0;
        while i < qs.len()
            invariant
                i <= qs@.len(),
                vs == views_of(qs@),
                vs.len() == qs@.len(),
                forall|k: int| 0 <= k < qs@.len() ==> #[trigger] vs[k] == qs@[k]@,
                sum_ok(Seq::empty(), vs),
                a.entries() == sum_all(Seq::empty(), vs.take(i as int)),
            decreases qs@.len() - i,
        {
            proof {
                lemma_sum_ok_prefix(Seq::empty(), vs, i + 1);
                assert(vs.take(i + 1).drop_last() =~= vs.take(i as int));
                assert(vs.take(i + 1).last() == vs[i as int]);
            }
            a.add_quantity(&qs[i]);
            i = i + 1;
        }
        assert(vs.take(vs.len() as int) =~= vs);
        a
    }
}

} // verus!
