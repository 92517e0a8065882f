//! Values at dates: a balance reported at several days, each day with its
//! own value, the days in calendar order.

use vstd::prelude::*;

use crate::date::Date;
use crate::amount::{Amount, Entry};
use crate::ntypes::{Arithmetic, Valuable};
use crate::report::Valuation;

verus! {

/// `a` comes strictly before `b` in the calendar.
pub open spec fn date_lt(a: Date, b: Date) -> bool {
    a.before_eq(b) && a != b
}

/// The dates of `s` strictly increase.
pub open spec fn dates_sorted<M>(s: Seq<(Date, M)>) -> bool {
    forall|i: int, j: int| #![trigger s[i], s[j]] 0 <= i < j < s.len() ==> date_lt(s[i].0, s[j].0)
}

/// The map from the dates of `s` to their values, a later pair winning
/// over an earlier one with the same date.
pub open spec fn ts_map<M>(s: Seq<(Date, M)>) -> Map<Date, M>
    decreases s.len(),
{
    if s.len() == 0 {
        Map::empty()
    } else {
        ts_map(s.drop_last()).insert(s.last().0, s.last().1)
    }
}

/// With its dates in order, `s` maps each of its dates to the value
/// paired with it, and nothing else.
pub proof fn lemma_ts_map<M>(s: Seq<(Date, M)>)
    requires
        dates_sorted(s),
    ensures
        forall|d: Date| #[trigger]
            ts_map(s).dom().contains(d) <==> exists|i: int| 0 <= i < s.len() && s[i].0 == d,
        forall|i: int| 0 <= i < s.len() ==> #[trigger] ts_map(s)[s[i].0] == s[i].1,
        ts_map(s).dom().finite(),
    decreases s.len(),
{
    if s.len() > 0 {
        let init = s.drop_last();
        let n = s.len() - 1;
        assert forall|i: int, j: int| #![trigger init[i], init[j]] 0 <= i < j < init.len() implies date_lt(
            init[i].0,
            init[j].0,
        ) by {
            assert(init[i] == s[i] && init[j] == s[j]);
        }
        lemma_ts_map(init);
        assert forall|i: int| 0 <= i < s.len() implies #[trigger] ts_map(s)[s[i].0] == s[i].1 by {
            if i < n {
                assert(date_lt(s[i].0, s[n].0));
                assert(init[i] == s[i]);
            }
        }
        assert forall|d: Date| #[trigger]
            ts_map(s).dom().contains(d) <==> exists|i: int| 0 <= i < s.len() && s[i].0 == d by {
            if ts_map(s).dom().contains(d) {
                if d == s[n].0 {
                } else {
                    let i = choose|i: int| 0 <= i < init.len() && init[i].0 == d;
                    assert(s[i].0 == d);
                }
            }
            if exists|i: int| 0 <= i < s.len() && s[i].0 == d {
                let i = choose|i: int| 0 <= i < s.len() && s[i].0 == d;
                if i < n {
                    assert(init[i].0 == d);
                }
            }
        }
    }
}

/// Values at dates.
#[derive(Debug, PartialEq)]
pub struct TAmount<V: Arithmetic> {
    ts: Vec<(Date, V)>,
}

impl<V: Arithmetic> TAmount<V> {
    /// The dates with their values, in calendar order.
    pub closed spec fn pairs(&self) -> Seq<(Date, V::V)> {
        self.ts@.map_values(|p: (Date, V)| (p.0, p.1@))
    }

    #[verifier::type_invariant]
    closed spec fn inv(&self) -> bool {
        dates_sorted(self.pairs())
    }
}

impl<V: Arithmetic> View for TAmount<V> {
    type V = Map<Date, V::V>;

    closed spec fn view(&self) -> Map<Date, V::V> {
        ts_map(self.pairs())
    }
}

impl<V: Arithmetic> TAmount<V> {
    /// No value at any date.
    pub fn new() -> (r: Self)
        ensures
            r@ == Map::<Date, V::V>::empty(),
            r.pairs().len() == 0,
    {
        let r = TAmount { ts: Vec::new() };
        assert(r.pairs() =~= Seq::<(Date, V::V)>::empty());
        r
    }

    /// Where date `d` is, or where it would go: whether it is there, and
    /// the index of the first date not before it.
    fn locate(&self, d: &Date) -> (r: (bool, usize))
        ensures
            r.1 <= self.pairs().len(),
            forall|j: int| 0 <= j < r.1 ==> date_lt(#[trigger] self.pairs()[j].0, *d),
            r.0 ==> r.1 < self.pairs().len() && self.pairs()[r.1 as int].0 == *d,
            !r.0 ==> forall|j: int|
                r.1 <= j < self.pairs().len() ==> date_lt(*d, #[trigger] self.pairs()[j].0),
    {
        proof {
            use_type_invariant(self);
        }
        let ghost p = self.pairs();
        let mut i: usize = 0;
        while i < self.ts.len()
            invariant
                i <= self.ts@.len(),
                p == self.pairs(),
                p.len() == self.ts@.len(),
                dates_sorted(p),
                forall|j: int| 0 <= j < i ==> date_lt(#[trigger] p[j].0, *d),
            decreases self.ts@.len() - i,
        {
            let t = &self.ts[i].0;
            assert(p[i as int].0 == *t);
            if d.le(t) {
                if t.le(d) {
                    proof {
                        Date::lemma_order(*d, *t, *t);
                    }
                    return (true, i);
                }
                proof {
                    assert forall|j: int| i <= j < p.len() implies date_lt(*d, #[trigger] p[j].0) by {
                        if j > i {
                            assert(date_lt(p[i as int].0, p[j].0));
                            Date::lemma_order(*d, *t, p[j].0);
                            Date::lemma_order(p[j].0, *d, *t);
                        }
                    }
                }
                return (false, i);
            }
            proof {
                Date::lemma_order(*d, *t, *t);
            }
            i = i + 1;
        }
        (false, i)
    }

    /// The value at date `d`, if there is one.
    pub fn at(&self, d: &Date) -> (r: Option<&V>)
        ensures
            r is Some <==> self@.dom().contains(*d),
            r matches Some(x) ==> x@ == self@[*d],
    {
        proof {
            use_type_invariant(self);
            lemma_ts_map(self.pairs());
        }
        let (found, i) = self.locate(d);
        if found {
            assert(self.pairs()[i as int].1 == self.ts@[i as int].1@);
            Some(&self.ts[i].1)
        } else {
            proof {
                assert forall|j: int| 0 <= j < self.pairs().len() implies self.pairs()[j].0 != *d by {
                    if j < i {
                        assert(date_lt(self.pairs()[j].0, *d));
                    } else {
                        assert(date_lt(*d, self.pairs()[j].0));
                    }
                }
            }
            None
        }
    }
    /// The same values, with `v` at date `d` (in place of any value
    /// there was).
    pub fn put(self, d: Date, v: V) -> (r: Self)
        ensures
            r@ == self@.insert(d, v@),
    {
        proof {
            use_type_invariant(&self);
            lemma_ts_map(self.pairs());
        }
        let ghost old_p = self.pairs();
        let ghost old_v = self@;
        let (found, i) = self.locate(&d);
        let TAmount { mut ts } = self;
        let ghost vv = v@;
        if found {
            ts.remove(i);
        }
        ts.insert(i, (d, v));
        let ghost np = ts@.map_values(|p: (Date, V)| (p.0, p.1@));
        proof {
            if found {
                assert(np =~= old_p.update(i as int, (d, vv)));
            } else {
                assert(np =~= old_p.insert(i as int, (d, vv)));
            }
            assert forall|a: int, b: int| #![trigger np[a], np[b]] 0 <= a < b < np.len() implies date_lt(
                np[a].0,
                np[b].0,
            ) by {
                if found {
                    if a == i {
                        assert(date_lt(old_p[a].0, old_p[b].0));
                    } else if b == i {
                        assert(date_lt(old_p[a].0, old_p[b].0));
                    } else {
                        assert(date_lt(old_p[a].0, old_p[b].0));
                    }
                } else {
                    if a < i && b == i {
                        assert(date_lt(old_p[a].0, d));
                    } else if a < i && b > i {
                        assert(date_lt(old_p[a].0, old_p[b - 1].0));
                    } else if a == i {
                        assert(date_lt(d, old_p[b - 1].0));
                    } else if b < i {
                        assert(date_lt(old_p[a].0, old_p[b].0));
                    } else {
                        assert(date_lt(old_p[a - 1].0, old_p[b - 1].0));
                    }
                }
            }
            lemma_ts_map(np);
            assert forall|k: Date| #[trigger] ts_map(np).dom().contains(k) <==> old_v.insert(
                d,
                vv,
            ).dom().contains(k) by {
                if ts_map(np).dom().contains(k) && k != d {
                    let j = choose|j: int| 0 <= j < np.len() && np[j].0 == k;
                    if found {
                        assert(old_p[j].0 == k);
                    } else if j < i {
                        assert(old_p[j].0 == k);
                    } else {
                        assert(old_p[j - 1].0 == k);
                    }
                }
                if old_v.dom().contains(k) && k != d {
                    let j = choose|j: int| 0 <= j < old_p.len() && old_p[j].0 == k;
                    if found {
                        assert(np[j].0 == k);
                    } else if j < i {
                        assert(np[j].0 == k);
                    } else {
                        assert(np[j + 1].0 == k);
                    }
                }
                if k == d {
                    assert(np[i as int].0 == d);
                }
            }
            assert forall|k: Date| #[trigger] ts_map(np).dom().contains(k) implies ts_map(np)[k]
                == old_v.insert(d, vv)[k] by {
                let j = choose|j: int| 0 <= j < np.len() && np[j].0 == k;
                if k == d {
                    assert(np[i as int].0 == d);
                    assert(ts_map(np)[np[i as int].0] == np[i as int].1);
                } else if found {
                    assert(old_p[j] == np[j]);
                } else if j < i {
                    assert(old_p[j] == np[j]);
                } else {
                    assert(old_p[j - 1] == np[j]);
                }
            }
            assert(ts_map(np) =~= old_v.insert(d, vv));
        }
        TAmount { ts }
    }

    /// The same values without the one at date `d`, and that value.
    pub fn take_at(self, d: &Date) -> (r: (Self, Option<V>))
        ensures
            r.0@ == self@.remove(*d),
            r.1 is Some <==> self@.dom().contains(*d),
            r.1 matches Some(x) ==> x@ == self@[*d],
    {
        proof {
            use_type_invariant(&self);
            lemma_ts_map(self.pairs());
        }
        let ghost old_p = self.pairs();
        let ghost old_v = self@;
        let (found, i) = self.locate(d);
        let TAmount { mut ts } = self;
        if found {
            let (_, x) = ts.remove(i);
            let ghost np = ts@.map_values(|p: (Date, V)| (p.0, p.1@));
            proof {
                assert(np =~= old_p.remove(i as int));
                assert forall|a: int, b: int| #![trigger np[a], np[b]] 0 <= a < b < np.len() implies date_lt(
                    np[a].0,
                    np[b].0,
                ) by {
                    if b < i {
                        assert(date_lt(old_p[a].0, old_p[b].0));
                    } else if a < i {
                        assert(date_lt(old_p[a].0, old_p[b + 1].0));
                    } else {
                        assert(date_lt(old_p[a + 1].0, old_p[b + 1].0));
                    }
                }
                lemma_ts_map(np);
                assert forall|k: Date| #[trigger] ts_map(np).dom().contains(k) <==> old_v.remove(
                    *d,
                ).dom().contains(k) by {
                    if ts_map(np).dom().contains(k) {
                        let j = choose|j: int| 0 <= j < np.len() && np[j].0 == k;
                        if j < i {
                            assert(old_p[j].0 == k);
                            assert(date_lt(old_p[j].0, old_p[i as int].0));
                        } else {
                            assert(old_p[j + 1].0 == k);
                            assert(date_lt(old_p[i as int].0, old_p[j + 1].0));
                        }
                    }
                    if old_v.dom().contains(k) && k != *d {
                        let j = choose|j: int| 0 <= j < old_p.len() && old_p[j].0 == k;
                        if j < i {
                            assert(np[j].0 == k);
                        } else {
                            assert(j != i);
                            assert(np[j - 1].0 == k);
                        }
                    }
                }
                assert forall|k: Date| #[trigger] ts_map(np).dom().contains(k) implies ts_map(np)[k]
                    == old_v.remove(*d)[k] by {
                    let j = choose|j: int| 0 <= j < np.len() && np[j].0 == k;
                    if j < i {
                        assert(old_p[j] == np[j]);
                    } else {
                        assert(old_p[j + 1] == np[j]);
                    }
                }
                assert(ts_map(np) =~= old_v.remove(*d));
                assert(old_p[i as int].1 == x@);
            }
            (TAmount { ts }, Some(x))
        } else {
            proof {
                assert forall|j: int| 0 <= j < old_p.len() implies old_p[j].0 != *d by {
                    if j < i {
                        assert(date_lt(old_p[j].0, *d));
                    } else {
                        assert(date_lt(*d, old_p[j].0));
                    }
                }
                assert(old_v.remove(*d) =~= old_v);
            }
            (TAmount { ts }, None)
        }
    }

    /// The values `v` at one date `d`.
    pub fn single(d: Date, v: V) -> (r: Self)
        ensures
            r@ == Map::<Date, V::V>::empty().insert(d, v@),
    {
        TAmount::new().put(d, v)
    }

    /// The values of the pairs, a later pair winning over an earlier one
    /// with the same date.
    pub fn from_pairs(ps: Vec<(Date, V)>) -> (r: Self)
        ensures
            r@ == ts_map(ps@.map_values(|p: (Date, V)| (p.0, p.1@))),
    {
        let ghost all = ps@.map_values(|p: (Date, V)| (p.0, p.1@));
        let mut acc = TAmount::new();
        let mut rest = ps;
        let n: usize = rest.len();
        let mut k: usize = 0;
        assert(rest@.map_values(|p: (Date, V)| (p.0, p.1@)) =~= all.subrange(0, n as int));
        assert(all.take(0) =~= Seq::<(Date, V::V)>::empty());
        while rest.len() > 0
            invariant
                k + rest@.len() == n,
                n == all.len(),
                rest@.map_values(|p: (Date, V)| (p.0, p.1@)) == all.subrange(k as int, n as int),
                acc@ == ts_map(all.take(k as int)),
            decreases rest@.len(),
        {
            let ghost before = rest@;
            let (d, v) = rest.remove(0);
            proof {
                assert(before.map_values(|p: (Date, V)| (p.0, p.1@))[0] == all[k as int]);
                let rm = rest@.map_values(|p: (Date, V)| (p.0, p.1@));
                let bm = before.map_values(|p: (Date, V)| (p.0, p.1@));
                assert forall|j: int| 0 <= j < rm.len() implies #[trigger] rm[j] == all[k + 1 + j] by {
                    assert(rest@[j] == before[j + 1]);
                    assert(bm[j + 1] == all[k + 1 + j]);
                }
                assert(rm =~= all.subrange(k + 1, n as int));
                assert(all.take(k + 1).drop_last() =~= all.take(k as int));
            }
            acc = acc.put(d, v);
            k = k + 1;
        }
        assert(all.take(n as int) =~= all);
        acc
    }

    /// The dates with their values, in calendar order.
    pub fn baskets(&self) -> (r: &Vec<(Date, V)>)
        ensures
            r@.map_values(|p: (Date, V)| (p.0, p.1@)) == self.pairs(),
            dates_sorted(self.pairs()),
            self@ == ts_map(self.pairs()),
    {
        proof {
            use_type_invariant(self);
        }
        &self.ts
    }

    /// The dates with their values, in calendar order.
    pub fn into_baskets(self) -> (r: Vec<(Date, V)>)
        ensures
            r@.map_values(|p: (Date, V)| (p.0, p.1@)) == self.pairs(),
            dates_sorted(self.pairs()),
            self@ == ts_map(self.pairs()),
    {
        proof {
            use_type_invariant(&self);
        }
        let TAmount { ts } = self;
        ts
    }
}

/// The value at date `d` of `a`, the empty value where there is none.
pub open spec fn ts_base<V: Arithmetic>(a: Map<Date, V::V>, d: Date) -> V::V {
    if a.dom().contains(d) {
        a[d]
    } else {
        V::empty_spec()
    }
}

/// Each value of `b` can be added to (or subtracted from) the value of
/// `a` at its date.
pub open spec fn ts_merge_ok<V: Arithmetic>(a: Map<Date, V::V>, b: Map<Date, V::V>, sub: bool) -> bool {
    forall|d: Date| #[trigger] b.dom().contains(d) ==> V::merge_spec(ts_base::<V>(a, d), b[d], sub) is Some
}

/// `a + b` date by date (or `a - b` when `sub`): at a date of `b`, the
/// value of `a` there (the empty value where there is none) with the
/// value of `b` added or subtracted; at the other dates of `a`, the value
/// of `a`.
pub open spec fn ts_merge<V: Arithmetic>(a: Map<Date, V::V>, b: Map<Date, V::V>, sub: bool) -> Map<Date, V::V> {
    Map::new(
        |d: Date| a.dom().contains(d) || b.dom().contains(d),
        |d: Date|
            if b.dom().contains(d) {
                V::merge_spec(ts_base::<V>(a, d), b[d], sub).unwrap()
            } else {
                a[d]
            },
    )
}

/// The values of `s` added to (or subtracted from) `a` one after the
/// other; `None` where a step fails.
pub open spec fn ts_apply<V: Arithmetic>(a: Map<Date, V::V>, s: Seq<(Date, V::V)>, sub: bool) -> Option<
    Map<Date, V::V>,
>
    decreases s.len(),
{
    if s.len() == 0 {
        Some(a)
    } else {
        match ts_apply::<V>(a, s.drop_last(), sub) {
            Some(m) => match V::merge_spec(ts_base::<V>(m, s.last().0), s.last().1, sub) {
                Some(x) => Some(m.insert(s.last().0, x)),
                None => None,
            },
            None => None,
        }
    }
}

/// Applying the values of `s` one after the other is merging the map of
/// `s`, when its dates are in order.
proof fn lemma_apply<V: Arithmetic>(a: Map<Date, V::V>, s: Seq<(Date, V::V)>, sub: bool)
    requires
        dates_sorted(s),
    ensures
        ts_apply::<V>(a, s, sub) == (if ts_merge_ok::<V>(a, ts_map(s), sub) {
            Some(ts_merge::<V>(a, ts_map(s), sub))
        } else {
            None
        }),
    decreases s.len(),
{
    if s.len() == 0 {
        assert(ts_merge::<V>(a, ts_map(s), sub) =~= a);
    } else {
        let init = s.drop_last();
        let n = s.len() - 1;
        let d = s[n].0;
        let x = s[n].1;
        assert forall|i: int, j: int| #![trigger init[i], init[j]] 0 <= i < j < init.len() implies date_lt(
            init[i].0,
            init[j].0,
        ) by {
            assert(init[i] == s[i] && init[j] == s[j]);
        }
        lemma_apply::<V>(a, init, sub);
        lemma_ts_map(init);
        assert(!ts_map(init).dom().contains(d)) by {
            if ts_map(init).dom().contains(d) {
                let i = choose|i: int| 0 <= i < init.len() && init[i].0 == d;
                assert(s[i] == init[i]);
                assert(date_lt(s[i].0, s[n].0));
            }
        }
        let mi = ts_map(init);
        let ms = ts_map(s);
        assert(ms == mi.insert(d, x));
        if ts_merge_ok::<V>(a, mi, sub) {
            let m = ts_merge::<V>(a, mi, sub);
            assert(ts_base::<V>(m, d) == ts_base::<V>(a, d));
            match V::merge_spec(ts_base::<V>(a, d), x, sub) {
                Some(y) => {
                    assert(ts_merge_ok::<V>(a, ms, sub));
                    assert(m.insert(d, y) =~= ts_merge::<V>(a, ms, sub));
                },
                None => {
                    assert(ms.dom().contains(d));
                },
            }
        } else {
            let k = choose|k: Date|
                #[trigger] mi.dom().contains(k) && !(V::merge_spec(ts_base::<V>(a, k), mi[k], sub) is Some);
            assert(ms.dom().contains(k) && ms[k] == mi[k]);
        }
    }
}

/// Once a prefix of `s` fails, the whole of it fails.
proof fn lemma_apply_stops<V: Arithmetic>(a: Map<Date, V::V>, s: Seq<(Date, V::V)>, sub: bool, n: int)
    requires
        0 <= n <= s.len(),
        ts_apply::<V>(a, s.take(n), sub) is None,
    ensures
        ts_apply::<V>(a, s, sub) is None,
    decreases s.len(),
{
    if n < s.len() {
        let init = s.drop_last();
        assert(init.take(n) =~= s.take(n));
        lemma_apply_stops::<V>(a, init, sub, n);
    } else {
        assert(s.take(n) =~= s);
    }
}

impl<V: Arithmetic> Arithmetic for TAmount<V> {
    /// Zero at every date.
    open spec fn zero_spec(m: Map<Date, V::V>) -> bool {
        forall|d: Date| #[trigger] m.dom().contains(d) ==> V::zero_spec(m[d])
    }

    open spec fn empty_spec() -> Map<Date, V::V> {
        Map::empty()
    }

    /// The same dates, with equal values at each.
    open spec fn same_spec(a: Map<Date, V::V>, b: Map<Date, V::V>) -> bool {
        &&& forall|d: Date| #[trigger] a.dom().contains(d) <==> b.dom().contains(d)
        &&& forall|d: Date| #[trigger] a.dom().contains(d) ==> V::same_spec(a[d], b[d])
    }

    open spec fn merge_spec(a: Map<Date, V::V>, b: Map<Date, V::V>, sub: bool) -> Option<Map<Date, V::V>> {
        if ts_merge_ok::<V>(a, b, sub) {
            Some(ts_merge::<V>(a, b, sub))
        } else {
            None
        }
    }

    proof fn lemma_empty_is_zero() {
    }

    fn empty() -> (r: Self) {
        TAmount::new()
    }

    fn test_zero(&self) -> (r: bool) {
        proof {
            use_type_invariant(self);
            lemma_ts_map(self.pairs());
        }
        let ghost p = self.pairs();
        let mut i: usize = 0;
        while i < self.ts.len()
            invariant
                i <= self.ts@.len(),
                p == self.pairs(),
                p.len() == self.ts@.len(),
                self@ == ts_map(p),
                dates_sorted(p),
                forall|j: int| 0 <= j < p.len() ==> #[trigger] ts_map(p)[p[j].0] == p[j].1,
                forall|j: int| 0 <= j < i ==> V::zero_spec(#[trigger] p[j].1),
            decreases self.ts@.len() - i,
        {
            assert(p[i as int].1 == self.ts@[i as int].1@);
            if !self.ts[i].1.test_zero() {
                proof {
                    lemma_ts_map(p);
                }
                assert(self@.dom().contains(p[i as int].0));
                return false;
            }
            i = i + 1;
        }
        proof {
            lemma_ts_map(p);
            assert forall|d: Date| #[trigger] self@.dom().contains(d) implies V::zero_spec(self@[d]) by {
                let j = choose|j: int| 0 <= j < p.len() && p[j].0 == d;
                assert(V::zero_spec(p[j].1));
            }
        }
        true
    }

    fn merged(self, rhs: Self, sub: bool) -> (r: Option<Self>) {
        proof {
            use_type_invariant(&rhs);
        }
        let ghost a = self@;
        let ghost rp = rhs.pairs();
        let ghost bv = rhs@;
        let mut acc = self;
        let TAmount { ts: mut rest } = rhs;
        let n: usize = rest.len();
        let mut k: usize = 0;
        assert(rest@.map_values(|p: (Date, V)| (p.0, p.1@)) =~= rp.subrange(0, n as int));
        assert(rp.take(0) =~= Seq::<(Date, V::V)>::empty());
        while rest.len() > 0
            invariant
                k + rest@.len() == n,
                n == rp.len(),
                dates_sorted(rp),
                bv == ts_map(rp),
                a == self@,
                bv == rhs@,
                rest@.map_values(|p: (Date, V)| (p.0, p.1@)) == rp.subrange(k as int, n as int),
                ts_apply::<V>(a, rp.take(k as int), sub) == Some(acc@),
            decreases rest@.len(),
        {
            let ghost before = rest@;
            let (d, m) = rest.remove(0);
            proof {
                let rm = rest@.map_values(|p: (Date, V)| (p.0, p.1@));
                let bm = before.map_values(|p: (Date, V)| (p.0, p.1@));
                assert(bm[0] == rp[k as int]);
                assert forall|j: int| 0 <= j < rm.len() implies #[trigger] rm[j] == rp[k + 1 + j] by {
                    assert(rest@[j] == before[j + 1]);
                    assert(bm[j + 1] == rp[k + 1 + j]);
                }
                assert(rm =~= rp.subrange(k + 1, n as int));
                assert(rp.take(k + 1).drop_last() =~= rp.take(k as int));
                assert(rp.take(k + 1).last() == rp[k as int]);
            }
            let ghost before_acc = acc@;
            let (rest_acc, cur) = acc.take_at(&d);
            let base = match cur {
                Some(x) => x,
                None => V::empty(),
            };
            assert(base@ == ts_base::<V>(before_acc, d));
            match base.merged(m, sub) {
                Some(x) => {
                    acc = rest_acc.put(d, x);
                    assert(acc@ =~= before_acc.insert(d, x@));
                },
                None => {
                    proof {
                        assert(ts_apply::<V>(a, rp.take(k + 1), sub) is None);
                        lemma_apply_stops::<V>(a, rp, sub, k + 1);
                        lemma_apply::<V>(a, rp, sub);
                    }
                    return None;
                },
            }
            k = k + 1;
        }
        proof {
            assert(rp.take(n as int) =~= rp);
            lemma_apply::<V>(a, rp, sub);
        }
        Some(acc)
    }

    fn same_value(&self, o: &Self) -> (r: bool) {
        proof {
            use_type_invariant(self);
            use_type_invariant(o);
            lemma_ts_map(self.pairs());
            lemma_ts_map(o.pairs());
        }
        let ghost p = self.pairs();
        let ghost q = o.pairs();
        if self.ts.len() != o.ts.len() {
            proof {
                lemma_same_len::<V>(p, q);
            }
            return false;
        }
        let mut i: usize = 0;
        while i < self.ts.len()
            invariant
                i <= self.ts@.len(),
                p == self.pairs(),
                q == o.pairs(),
                p.len() == self.ts@.len(),
                q.len() == o.ts@.len(),
                p.len() == q.len(),
                dates_sorted(p),
                dates_sorted(q),
                self@ == ts_map(p),
                o@ == ts_map(q),
                forall|j: int| 0 <= j < i ==> (#[trigger] p[j]).0 == q[j].0 && V::same_spec(p[j].1, q[j].1),
            decreases self.ts@.len() - i,
        {
            assert(p[i as int] == (self.ts@[i as int].0, self.ts@[i as int].1@));
            assert(q[i as int] == (o.ts@[i as int].0, o.ts@[i as int].1@));
            let d1 = self.ts[i].0;
            let d2 = o.ts[i].0;
            if !(d1.le(&d2) && d2.le(&d1)) || !self.ts[i].1.same_value(&o.ts[i].1) {
                proof {
                    Date::lemma_order(d1, d2, d2);
                    lemma_ts_map(p);
                    lemma_ts_map(q);
                    lemma_same_pointwise::<V>(p, q, i as int);
                }
                return false;
            }
            proof {
                Date::lemma_order(d1, d2, d2);
            }
            i = i + 1;
        }
        proof {
            lemma_ts_map(p);
            lemma_ts_map(q);
            assert forall|d: Date| #[trigger] self@.dom().contains(d) <==> o@.dom().contains(d) by {
                if self@.dom().contains(d) {
                    let j = choose|j: int| 0 <= j < p.len() && p[j].0 == d;
                    assert(q[j].0 == d);
                }
                if o@.dom().contains(d) {
                    let j = choose|j: int| 0 <= j < q.len() && q[j].0 == d;
                    assert(p[j].0 == d);
                }
            }
            assert forall|d: Date| #[trigger] self@.dom().contains(d) implies V::same_spec(self@[d], o@[d]) by {
                let j = choose|j: int| 0 <= j < p.len() && p[j].0 == d;
                assert(q[j].0 == d);
                assert(ts_map(p)[p[j].0] == p[j].1);
                assert(ts_map(q)[q[j].0] == q[j].1);
            }
        }
        true
    }

    fn copy_of(&self) -> (r: Self) {
        proof {
            use_type_invariant(self);
        }
        let mut ts: Vec<(Date, V)> = Vec::new();
        let mut i: usize = 0;
        while i < self.ts.len()
            invariant
                i <= self.ts@.len(),
                ts@.len() == i,
                forall|j: int| 0 <= j < i ==> (#[trigger] ts@[j]).0 == self.ts@[j].0 && ts@[j].1@ == self.ts@[j].1@,
            decreases self.ts@.len() - i,
        {
            let d = self.ts[i].0;
            ts.push((d, self.ts[i].1.copy_of()));
            i = i + 1;
        }
        assert(ts@.map_values(|p: (Date, V)| (p.0, p.1@)) =~= self.pairs());
        TAmount { ts }
    }
}

/// The prices of the values of `m` under valuation `val` can all be
/// computed.
pub open spec fn ts_value_ok<V: Valuable + Arithmetic>(m: Map<Date, V::V>, val: Valuation) -> bool {
    forall|d: Date| #[trigger] m.dom().contains(d) ==> V::value_spec(m[d], val) is Some
}

impl<V: Valuable + Arithmetic> TAmount<V> {
    /// The values priced under valuation `val`, date by date; `None`
    /// where a price overflows.
    pub fn valued_in(&self, val: Valuation) -> (r: Option<TAmount<Amount>>)
        ensures
            r is Some <==> ts_value_ok::<V>(self@, val),
            r matches Some(x) ==> x@.dom() == self@.dom() && forall|d: Date| #[trigger]
                x@.dom().contains(d) ==> Some(x@[d]) == V::value_spec(self@[d], val),
    {
        proof {
            use_type_invariant(self);
            lemma_ts_map(self.pairs());
        }
        let ghost p = self.pairs();
        let mut ts: Vec<(Date, Amount)> = Vec::new();
        let mut i: usize = 0;
        while i < self.ts.len()
            invariant
                i <= self.ts@.len(),
                p == self.pairs(),
                p.len() == self.ts@.len(),
                dates_sorted(p),
                self@ == ts_map(p),
                ts@.len() == i,
                forall|j: int| 0 <= j < i ==> (#[trigger] ts@[j]).0 == p[j].0 && Some(ts@[j].1@) == V::value_spec(p[j].1, val),
            decreases self.ts@.len() - i,
        {
            assert(p[i as int] == (self.ts@[i as int].0, self.ts@[i as int].1@));
            match self.ts[i].1.valued(val) {
                Some(a) => {
                    ts.push((self.ts[i].0, a));
                },
                None => {
                    proof {
                        lemma_ts_map(p);
                        assert(self@.dom().contains(p[i as int].0));
                        assert(self@[p[i as int].0] == p[i as int].1);
                    }
                    return None;
                },
            }
            i = i + 1;
        }
        let ghost np = ts@.map_values(|q: (Date, Amount)| (q.0, q.1@));
        proof {
            lemma_ts_map(p);
            assert forall|a: int, b: int| #![trigger np[a], np[b]] 0 <= a < b < np.len() implies date_lt(
                np[a].0,
                np[b].0,
            ) by {
                assert(date_lt(p[a].0, p[b].0));
            }
            lemma_ts_map(np);
            assert forall|d: Date| #[trigger] self@.dom().contains(d) implies V::value_spec(self@[d], val) is Some by {
                let j = choose|j: int| 0 <= j < p.len() && p[j].0 == d;
                assert(ts_map(p)[p[j].0] == p[j].1);
                assert(Some(ts@[j].1@) == V::value_spec(p[j].1, val));
            }
            assert forall|d: Date| #[trigger] ts_map(np).dom().contains(d) <==> self@.dom().contains(d) by {
                if ts_map(np).dom().contains(d) {
                    let j = choose|j: int| 0 <= j < np.len() && np[j].0 == d;
                    assert(p[j].0 == d);
                }
                if self@.dom().contains(d) {
                    let j = choose|j: int| 0 <= j < p.len() && p[j].0 == d;
                    assert(np[j].0 == d);
                }
            }
            assert(ts_map(np).dom() =~= self@.dom());
            assert forall|d: Date| #[trigger] ts_map(np).dom().contains(d) implies Some(ts_map(np)[d])
                == V::value_spec(self@[d], val) by {
                let j = choose|j: int| 0 <= j < np.len() && np[j].0 == d;
                assert(ts_map(np)[np[j].0] == np[j].1);
                assert(ts_map(p)[p[j].0] == p[j].1);
            }
        }
        let r = TAmount { ts };
        assert(r.pairs() == np);
        Some(r)
    }
}

/// Maps of sorted pairs with the same dates have as many pairs.
proof fn lemma_same_len<V: Arithmetic>(p: Seq<(Date, V::V)>, q: Seq<(Date, V::V)>)
    requires
        dates_sorted(p),
        dates_sorted(q),
        p.len() != q.len(),
    ensures
        !TAmount::<V>::same_spec(ts_map(p), ts_map(q)),
{
    lemma_ts_map(p);
    lemma_ts_map(q);
    if TAmount::<V>::same_spec(ts_map(p), ts_map(q)) {
        // the dates of p all occur in q and the other way round, both in
        // strict order: the k-th dates agree, so the lengths do too
        lemma_dates_match(p, q, 0);
    }
}

/// Sorted pairs with the same set of dates that agree before `k` agree at
/// `k`.
proof fn lemma_kth_agree<M>(p: Seq<(Date, M)>, q: Seq<(Date, M)>, k: int)
    requires
        dates_sorted(p),
        dates_sorted(q),
        forall|d: Date| #[trigger] ts_map(p).dom().contains(d) <==> ts_map(q).dom().contains(d),
        0 <= k < p.len(),
        k < q.len(),
        forall|i: int| 0 <= i < k ==> #[trigger] p[i].0 == q[i].0,
    ensures
        p[k].0 == q[k].0,
{
    lemma_ts_map(p);
    lemma_ts_map(q);
    let dp = p[k].0;
    let dq = q[k].0;
    assert(ts_map(p).dom().contains(dp));
    assert(ts_map(q).dom().contains(dp));
    assert(ts_map(q).dom().contains(dq));
    assert(ts_map(p).dom().contains(dq));
    let j = choose|j: int| 0 <= j < q.len() && q[j].0 == dp;
    let a = choose|a: int| 0 <= a < p.len() && p[a].0 == dq;
    if j < k {
        assert(p[j].0 == q[j].0);
        assert(date_lt(p[j].0, p[k].0));
    }
    if a < k {
        assert(p[a].0 == q[a].0);
        assert(date_lt(q[a].0, q[k].0));
    }
    if j > k && a > k {
        assert(date_lt(q[k].0, q[j].0));
        assert(date_lt(p[k].0, p[a].0));
        Date::lemma_order(dp, dq, dp);
    }
}

/// Sorted sequences with the same set of dates have the same length, once
/// they agree before `k`.
proof fn lemma_dates_match<M>(p: Seq<(Date, M)>, q: Seq<(Date, M)>, k: int)
    requires
        dates_sorted(p),
        dates_sorted(q),
        0 <= k,
        forall|d: Date| #[trigger] ts_map(p).dom().contains(d) <==> ts_map(q).dom().contains(d),
        forall|i: int| 0 <= i < k && i < p.len() && i < q.len() ==> #[trigger] p[i].0 == q[i].0,
        k <= p.len() && k <= q.len(),
    ensures
        p.len() == q.len(),
    decreases p.len() + q.len() - 2 * k,
{
    lemma_ts_map(p);
    lemma_ts_map(q);
    if k < p.len() && k < q.len() {
        lemma_kth_agree(p, q, k);
        lemma_dates_match(p, q, k + 1);
    } else if k < p.len() {
        assert(ts_map(p).dom().contains(p[k].0));
        assert(ts_map(q).dom().contains(p[k].0));
        let j = choose|j: int| 0 <= j < q.len() && q[j].0 == p[k].0;
        assert(p[j].0 == q[j].0);
        assert(date_lt(p[j].0, p[k].0));
    } else if k < q.len() {
        assert(ts_map(q).dom().contains(q[k].0));
        assert(ts_map(p).dom().contains(q[k].0));
        let i = choose|i: int| 0 <= i < p.len() && p[i].0 == q[k].0;
        assert(p[i].0 == q[i].0);
        assert(date_lt(q[i].0, q[k].0));
    }
}

/// Where sorted pairs of equal length differ at the first `i` where they
/// may, the maps they stand for are not the same.
proof fn lemma_same_pointwise<V: Arithmetic>(p: Seq<(Date, V::V)>, q: Seq<(Date, V::V)>, i: int)
    requires
        dates_sorted(p),
        dates_sorted(q),
        p.len() == q.len(),
        0 <= i < p.len(),
        forall|j: int| 0 <= j < i ==> (#[trigger] p[j]).0 == q[j].0,
        !(p[i].0 == q[i].0 && V::same_spec(p[i].1, q[i].1)),
    ensures
        !TAmount::<V>::same_spec(ts_map(p), ts_map(q)),
{
    lemma_ts_map(p);
    lemma_ts_map(q);
    if TAmount::<V>::same_spec(ts_map(p), ts_map(q)) {
        lemma_dates_agree(p, q, 0, i);
        assert(p[i].0 == q[i].0);
        assert(ts_map(p)[p[i].0] == p[i].1);
        assert(ts_map(q)[q[i].0] == q[i].1);
        assert(ts_map(p).dom().contains(p[i].0));
    }
}

/// With the same set of dates, sorted pairs agree date by date.
proof fn lemma_dates_agree<M>(p: Seq<(Date, M)>, q: Seq<(Date, M)>, k: int, i: int)
    requires
        dates_sorted(p),
        dates_sorted(q),
        p.len() == q.len(),
        0 <= k <= i < p.len(),
        forall|d: Date| #[trigger] ts_map(p).dom().contains(d) <==> ts_map(q).dom().contains(d),
        forall|j: int| 0 <= j < k ==> #[trigger] p[j].0 == q[j].0,
    ensures
        p[i].0 == q[i].0,
    decreases i - k,
{
    lemma_kth_agree(p, q, k);
    if k < i {
        lemma_dates_agree(p, q, k + 1, i);
    }
}

impl Amount {
    /// The amount as a value at date `date` alone.
    pub fn to_tamount(self, date: Date) -> (r: TAmount<Amount>)
        ensures
            r@ == Map::<Date, Seq<Entry>>::empty().insert(date, self@),
    {
        TAmount::single(date, self)
    }
}

/// A value put at a date is found there afterwards, and every other date
/// keeps what it had (see `TAmount::put` and `TAmount::at`).
pub proof fn law_put_then_at<V: Arithmetic>(t: TAmount<V>, d: Date, v: V, e: Date)
    ensures
        t@.insert(d, v@).dom().contains(d),
        t@.insert(d, v@)[d] == v@,
        e != d ==> (t@.insert(d, v@).dom().contains(e) <==> t@.dom().contains(e)),
        e != d ==> t@.insert(d, v@)[e] == t@[e],
{
}

} // verus!
