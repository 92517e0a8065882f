//! A balance: accounts of one view (flat, fully hierarchical or compact),
//! each under its name, in name order.

use vstd::prelude::*;

use crate::accview::{
    bal_sum, compact_tree, drop_zero_tree, flat_of, fviews, hier_tree, kept, limit_accounts_depth,
    limit_tree, subs_named, AccTree, AccountView, CompactAccountView, FlatAccountView, HierAccountView,
    merge_sub_accounts_checked, tree_value_ok, tree_valued,
};
use crate::amount::{Amount, Entry};
use crate::date::Date;
use crate::ntypes::Valuable;
use crate::report::Valuation;
use crate::tamount::TAmount;
use crate::catalog::seq_lt;
use crate::journal::AccName;
use crate::ntypes::Arithmetic;

verus! {

/// An account by value under its key.
pub type Keyed<B> = (Seq<char>, AccTree<B>);

/// The keys strictly increase.
pub open spec fn keys_sorted<B>(s: Seq<Keyed<B>>) -> bool {
    forall|i: int, j: int| 0 <= i < j < s.len() ==> seq_lt(#[trigger] s[i].0, #[trigger] s[j].0)
}

/// The accounts of `s`, without their keys.
pub open spec fn accounts_of<B>(s: Seq<Keyed<B>>) -> Seq<AccTree<B>> {
    s.map_values(|p: Keyed<B>| p.1)
}

/// `s` with account `x` added under its name: added to the account of
/// that name (see `AccountView::absorb_spec`), or put in key order where
/// there is none. `None` where a sum overflows.
pub open spec fn bv_add<A: AccountView>(s: Seq<Keyed<<A::TsValue as View>::V>>, x: AccTree<<A::TsValue as View>::V>) -> Option<
    Seq<Keyed<<A::TsValue as View>::V>>,
>
    decreases s.len(),
{
    if s.len() == 0 {
        Some(seq![(x.name, x)])
    } else if s[0].0 == x.name {
        match A::absorb_spec(s[0].1, x) {
            Some(m) => Some(seq![(s[0].0, m)] + s.drop_first()),
            None => None,
        }
    } else if seq_lt(x.name, s[0].0) {
        Some(seq![(x.name, x)] + s)
    } else {
        match bv_add::<A>(s.drop_first(), x) {
            Some(t) => Some(seq![s[0]] + t),
            None => None,
        }
    }
}

/// `s` with the accounts `xs` added one after the other.
pub open spec fn bv_add_all<A: AccountView>(s: Seq<Keyed<<A::TsValue as View>::V>>, xs: Seq<AccTree<<A::TsValue as View>::V>>) -> Option<
    Seq<Keyed<<A::TsValue as View>::V>>,
>
    decreases xs.len(),
{
    if xs.len() == 0 {
        Some(s)
    } else {
        match bv_add_all::<A>(s, xs.drop_last()) {
            Some(t) => bv_add::<A>(t, xs.last()),
            None => None,
        }
    }
}

/// Adding where the first key not before the name is: merging with the
/// account there when its key is the name, putting it there otherwise.
proof fn lemma_bv_add<A: AccountView>(s: Seq<Keyed<<A::TsValue as View>::V>>, x: AccTree<<A::TsValue as View>::V>, i: int)
    requires
        keys_sorted(s),
        0 <= i <= s.len(),
        forall|j: int| 0 <= j < i ==> seq_lt(#[trigger] s[j].0, x.name),
        i < s.len() ==> !seq_lt(s[i].0, x.name),
    ensures
        bv_add::<A>(s, x) == (if i < s.len() && s[i].0 == x.name {
            match A::absorb_spec(s[i].1, x) {
                Some(m) => Some(s.update(i, (s[i].0, m))),
                None => None,
            }
        } else {
            Some(s.insert(i, (x.name, x)))
        }),
    decreases s.len(),
{
    if s.len() == 0 {
        assert(s.insert(i, (x.name, x)) =~= seq![(x.name, x)]);
    } else if i == 0 {
        crate::catalog::lemma_seq_lt(s[0].0, x.name, x.name);
        if s[0].0 == x.name {
            match A::absorb_spec(s[0].1, x) {
                Some(m) => {
                    assert(seq![(s[0].0, m)] + s.drop_first() =~= s.update(0, (s[0].0, m)));
                },
                None => {},
            }
        } else {
            assert(seq![(x.name, x)] + s =~= s.insert(0, (x.name, x)));
        }
    } else {
        let r = s.drop_first();
        assert(seq_lt(s[0].0, x.name));
        crate::catalog::lemma_seq_lt(s[0].0, x.name, x.name);
        assert(keys_sorted(r)) by {
            assert forall|a: int, b: int| 0 <= a < b < r.len() implies seq_lt(#[trigger] r[a].0, #[trigger] r[b].0) by {
                assert(r[a] == s[a + 1] && r[b] == s[b + 1]);
            }
        }
        assert forall|j: int| 0 <= j < i - 1 implies seq_lt(#[trigger] r[j].0, x.name) by {
            assert(r[j] == s[j + 1]);
        }
        lemma_bv_add::<A>(r, x, i - 1);
        if i < s.len() && s[i].0 == x.name {
            match A::absorb_spec(s[i].1, x) {
                Some(m) => {
                    assert(seq![s[0]] + r.update(i - 1, (r[i - 1].0, m)) =~= s.update(i, (s[i].0, m)));
                },
                None => {},
            }
        } else {
            assert(seq![s[0]] + r.insert(i - 1, (x.name, x)) =~= s.insert(i, (x.name, x)));
        }
    }
}

/// Accounts of one view, each under its key, in key order.
#[derive(Debug, PartialEq)]
pub struct BalanceView<A: AccountView> {
    accnts: Vec<(AccName, A)>,
}

impl<A: AccountView> View for BalanceView<A> {
    type V = Seq<Keyed<<A::TsValue as View>::V>>;

    closed spec fn view(&self) -> Seq<Keyed<<A::TsValue as View>::V>> {
        self.accnts@.map_values(|p: (AccName, A)| (p.0@, p.1.tree()))
    }
}

impl<A: AccountView> BalanceView<A> {
    #[verifier::type_invariant]
    closed spec fn inv(&self) -> bool {
        keys_sorted(self@)
    }

    /// No account.
    pub fn new() -> (r: Self)
        ensures
            r@ == Seq::<Keyed<<A::TsValue as View>::V>>::empty(),
    {
        let r = BalanceView { accnts: Vec::new() };
        assert(r@ =~= Seq::<Keyed<<A::TsValue as View>::V>>::empty());
        r
    }

    /// The accounts with their keys, in key order.
    pub fn accounts(&self) -> (r: &Vec<(AccName, A)>)
        ensures
            r@.map_values(|p: (AccName, A)| (p.0@, p.1.tree())) == self@,
            keys_sorted(self@),
    {
        proof {
            use_type_invariant(self);
        }
        &self.accnts
    }

    /// The accounts with their keys, in key order.
    pub fn into_accounts(self) -> (r: Vec<(AccName, A)>)
        ensures
            r@.map_values(|p: (AccName, A)| (p.0@, p.1.tree())) == self@,
            keys_sorted(self@),
    {
        proof {
            use_type_invariant(&self);
        }
        let BalanceView { accnts } = self;
        accnts
    }

    /// Where key `k` is, or where it would go: whether it is there, and
    /// the index of the first key not before it.
    fn locate(&self, k: &AccName) -> (r: (bool, usize))
        ensures
            r.1 <= self@.len(),
            forall|j: int| 0 <= j < r.1 ==> seq_lt(#[trigger] self@[j].0, k@),
            r.1 < self@.len() ==> !seq_lt(self@[r.1 as int].0, k@),
            r.0 <==> (r.1 < self@.len() && self@[r.1 as int].0 == k@),
    {
        proof {
            use_type_invariant(self);
        }
        let ghost v = self@;
        let mut i: usize = 0;
        while i < self.accnts.len() && self.accnts[i].0.lt(k)
            invariant
                i <= self.accnts@.len(),
                v == self@,
                v.len() == self.accnts@.len(),
                forall|j: int| 0 <= j < v.len() ==> #[trigger] v[j] == (self.accnts@[j].0@, self.accnts@[j].1.tree()),
                forall|j: int| 0 <= j < i ==> seq_lt(#[trigger] v[j].0, k@),
            decreases self.accnts@.len() - i,
        {
            assert(v[i as int].0 == self.accnts@[i as int].0@);
            i = i + 1;
        }
        if i < self.accnts.len() {
            assert(v[i as int].0 == self.accnts@[i as int].0@);
            (self.accnts[i].0.same(k), i)
        } else {
            (false, i)
        }
    }

    /// The account under key `k`, if there is one.
    pub fn account(&self, k: &AccName) -> (r: Option<&A>)
        ensures
            r is Some <==> exists|i: int| 0 <= i < self@.len() && self@[i].0 == k@,
            r matches Some(a) ==> exists|i: int| 0 <= i < self@.len() && self@[i].0 == k@ && self@[i].1 == a.tree(),
    {
        proof {
            use_type_invariant(self);
        }
        let (found, i) = self.locate(k);
        if found {
            assert(self@[i as int] == (self.accnts@[i as int].0@, self.accnts@[i as int].1.tree()));
            Some(&self.accnts[i].1)
        } else {
            proof {
                assert forall|j: int| 0 <= j < self@.len() implies self@[j].0 != k@ by {
                    if j < i {
                        crate::catalog::lemma_seq_lt(self@[j].0, k@, k@);
                    } else if j > i {
                        assert(seq_lt(self@[i as int].0, self@[j].0));
                        crate::catalog::lemma_seq_lt(self@[i as int].0, self@[j].0, k@);
                        crate::catalog::lemma_seq_lt(k@, self@[i as int].0, self@[j].0);
                    }
                }
            }
            None
        }
    }

    /// The balance with account `x` added under its name (see `bv_add`);
    /// `None` where a sum overflows.
    pub fn add_checked(self, x: A) -> (r: Option<Self>)
        ensures
            r is Some <==> bv_add::<A>(self@, x.tree()) is Some,
            r matches Some(b) ==> Some(b@) == bv_add::<A>(self@, x.tree()),
    {
        proof {
            use_type_invariant(&self);
        }
        let ghost v = self@;
        let ghost xv = x.tree();
        let (found, i) = self.locate(x.name());
        proof {
            lemma_bv_add::<A>(v, xv, i as int);
        }
        let BalanceView { mut accnts } = self;
        if found {
            let (key, old) = accnts.remove(i);
            assert(v[i as int] == (key@, old.tree()));
            match old.absorb(x) {
                Some(m) => {
                    let ghost mv = m.tree();
                    accnts.insert(i, (key, m));
                    proof {
                        let nv = accnts@.map_values(|p: (AccName, A)| (p.0@, p.1.tree()));
                        assert(nv =~= v.update(i as int, (v[i as int].0, mv)));
                        assert forall|a: int, b: int| 0 <= a < b < nv.len() implies seq_lt(#[trigger] nv[a].0, #[trigger] nv[b].0) by {
                            assert(seq_lt(v[a].0, v[b].0));
                        }
                    }
                    Some(BalanceView { accnts })
                },
                None => None,
            }
        } else {
            let key = x.name().duplicate();
            accnts.insert(i, (key, x));
            proof {
                let nv = accnts@.map_values(|p: (AccName, A)| (p.0@, p.1.tree()));
                assert(nv =~= v.insert(i as int, (xv.name, xv)));
                assert forall|a: int, b: int| 0 <= a < b < nv.len() implies seq_lt(#[trigger] nv[a].0, #[trigger] nv[b].0) by {
                    if b < i {
                        assert(seq_lt(v[a].0, v[b].0));
                    } else if a < i && b == i {
                    } else if a < i {
                        assert(seq_lt(v[a].0, xv.name));
                        assert(!seq_lt(v[i as int].0, xv.name));
                        assert(seq_lt(v[i as int].0, v[b - 1].0) || b - 1 == i);
                        crate::catalog::lemma_seq_lt(v[a].0, xv.name, v[b - 1].0);
                        crate::catalog::lemma_seq_lt(xv.name, v[i as int].0, v[b - 1].0);
                        crate::catalog::lemma_seq_lt(v[i as int].0, xv.name, v[b - 1].0);
                    } else if a == i {
                        crate::catalog::lemma_seq_lt(xv.name, v[i as int].0, v[b - 1].0);
                        crate::catalog::lemma_seq_lt(v[i as int].0, xv.name, v[b - 1].0);
                        if b - 1 > i {
                            assert(seq_lt(v[i as int].0, v[b - 1].0));
                        }
                    } else {
                        assert(seq_lt(v[a - 1].0, v[b - 1].0));
                    }
                }
            }
            Some(BalanceView { accnts })
        }
    }
}

/// `s` with the flat accounts of each of `accs` added, account after
/// account (see `flat_of`); `None` where a sum overflows.
pub open spec fn flat_into<T: Arithmetic>(s: Seq<Keyed<T::V>>, accs: Seq<AccTree<T::V>>) -> Option<Seq<Keyed<T::V>>>
    decreases accs.len(),
{
    if accs.len() == 0 {
        Some(s)
    } else {
        match flat_into::<T>(s, accs.drop_last()) {
            Some(t) => match flat_of::<T>(accs.last(), accs.last().name) {
                Some(fs) => bv_add_all::<FlatAccountView<T>>(t, fs),
                None => None,
            },
            None => None,
        }
    }
}

/// `s` with each of `accs` made fully hierarchical and added, one after
/// the other.
pub open spec fn hier_into<T: Arithmetic>(s: Seq<Keyed<T::V>>, accs: Seq<AccTree<T::V>>) -> Option<Seq<Keyed<T::V>>>
    decreases accs.len(),
{
    if accs.len() == 0 {
        Some(s)
    } else {
        match hier_into::<T>(s, accs.drop_last()) {
            Some(t) => bv_add::<HierAccountView<T>>(t, hier_tree(accs.last())),
            None => None,
        }
    }
}

/// Each account of `s` compacted (see `compact_tree`), under the same key.
pub open spec fn compact_all<T: Arithmetic>(s: Seq<Keyed<T::V>>) -> Option<Seq<Keyed<T::V>>>
    decreases s.len(),
{
    if s.len() == 0 {
        Some(Seq::empty())
    } else {
        match (compact_all::<T>(s.drop_last()), compact_tree::<T>(s.last().1)) {
            (Some(a), Some(c)) => Some(a.push((s.last().0, c))),
            _ => None,
        }
    }
}

/// Every account has a name, and so does every sub-account.
pub open spec fn all_named<B>(s: Seq<Keyed<B>>) -> bool {
    forall|i: int| 0 <= i < s.len() ==> (#[trigger] s[i]).1.name.len() > 0 && subs_named(s[i].1)
}

impl<A: AccountView> BalanceView<A> {
    /// Adds account `x` under its name (see `bv_add`).
    pub fn add_assign(&mut self, x: A)
        requires
            bv_add::<A>(old(self)@, x.tree()) is Some,
        ensures
            Some(final(self)@) == bv_add::<A>(old(self)@, x.tree()),
    {
        let mut t = BalanceView::new();
        std::mem::swap(self, &mut t);
        *self = t.add_checked(x).unwrap();
    }

    /// The balance with the accounts `xs` added one after the other (see
    /// `bv_add_all`); `None` where a sum overflows.
    pub fn add_all_checked(self, xs: Vec<A>) -> (r: Option<Self>)
        ensures
            r is Some <==> bv_add_all::<A>(self@, xs@.map_values(|a: A| a.tree())) is Some,
            r matches Some(b) ==> Some(b@) == bv_add_all::<A>(self@, xs@.map_values(|a: A| a.tree())),
    {
        let ghost v = self@;
        let ghost all = xs@.map_values(|a: A| a.tree());
        let mut acc = self;
        let mut rest = xs;
        let n: usize = rest.len();
        let mut k: usize = 0;
        assert(all.take(0) =~= Seq::<AccTree<<A::TsValue as View>::V>>::empty());
        while rest.len() > 0
            invariant
                k + rest@.len() == n,
                n == all.len(),
                v == self@,
                all == xs@.map_values(|a: A| a.tree()),
                rest@.map_values(|a: A| a.tree()) == all.subrange(k as int, n as int),
                bv_add_all::<A>(v, all.take(k as int)) == Some(acc@),
            decreases rest@.len(),
        {
            let ghost b = rest@;
            let x = rest.remove(0);
            proof {
                let rm = rest@.map_values(|a: A| a.tree());
                let bm = b.map_values(|a: A| a.tree());
                assert(bm[0] == all[k as int]);
                assert forall|j: int| 0 <= j < rm.len() implies #[trigger] rm[j] == all[k + 1 + j] by {
                    assert(rest@[j] == b[j + 1]);
                    assert(bm[j + 1] == all[k + 1 + j]);
                }
                assert(rm =~= all.subrange(k + 1, n as int));
                assert(all.take(k + 1).drop_last() =~= all.take(k as int));
                assert(all.take(k + 1).last() == all[k as int]);
            }
            acc = match acc.add_checked(x) {
                Some(a) => a,
                None => {
                    proof {
                        assert(bv_add_all::<A>(v, all.take(k + 1)) is None);
                        lemma_add_all_stops::<A>(v, all, k + 1);
                    }
                    return None;
                },
            };
            k = k + 1;
        }
        assert(all.take(n as int) =~= all);
        Some(acc)
    }

    /// The balances of all the accounts added up (see `bal_sum`); `None`
    /// where a sum overflows.
    pub fn balance_checked(&self) -> (r: Option<A::TsValue>)
        ensures
            r is Some <==> bal_sum::<A::TsValue>(accounts_of(self@)) is Some,
            r matches Some(x) ==> Some(x@) == bal_sum::<A::TsValue>(accounts_of(self@)),
    {
        let ghost accs = accounts_of(self@);
        let mut acc = A::TsValue::empty();
        let mut i: usize = 0;
        assert(accs.take(0) =~= Seq::<AccTree<<A::TsValue as View>::V>>::empty());
        while i < self.accnts.len()
            invariant
                i <= self.accnts@.len(),
                accs == accounts_of(self@),
                accs.len() == self.accnts@.len(),
                forall|j: int| 0 <= j < accs.len() ==> #[trigger] accs[j] == self.accnts@[j].1.tree(),
                bal_sum::<A::TsValue>(accs.take(i as int)) == Some(acc@),
            decreases self.accnts@.len() - i,
        {
            assert(accs.take(i + 1).drop_last() =~= accs.take(i as int));
            assert(accs.take(i + 1).last() == accs[i as int]);
            let b = self.accnts[i].1.balance().copy_of();
            acc = match acc.merged(b, false) {
                Some(a) => a,
                None => {
                    proof {
                        assert(bal_sum::<A::TsValue>(accs.take(i + 1)) is None);
                        lemma_bal_sum_stops::<A::TsValue>(accs, i + 1);
                    }
                    return None;
                },
            };
            i = i + 1;
        }
        assert(accs.take(accs.len() as int) =~= accs);
        Some(acc)
    }

    /// The balances of all the accounts added up (see `bal_sum`).
    pub fn balance(&self) -> (r: A::TsValue)
        requires
            bal_sum::<A::TsValue>(accounts_of(self@)) is Some,
        ensures
            Some(r@) == bal_sum::<A::TsValue>(accounts_of(self@)),
    {
        self.balance_checked().unwrap()
    }

    /// The flat balance: the flat accounts of each account (see
    /// `flat_of`) added one after the other; `None` where a sum
    /// overflows.
    pub fn to_flat(self) -> (r: Option<BalanceView<FlatAccountView<A::TsValue>>>)
        ensures
            r is Some <==> flat_into::<A::TsValue>(Seq::empty(), accounts_of(self@)) is Some,
            r matches Some(b) ==> Some(b@) == flat_into::<A::TsValue>(Seq::empty(), accounts_of(self@)),
    {
        let ghost accs = accounts_of(self@);
        let mut res: BalanceView<FlatAccountView<A::TsValue>> = BalanceView::new();
        let mut rest = self.into_accounts();
        let n: usize = rest.len();
        let mut k: usize = 0;
        assert(accs.take(0) =~= Seq::<AccTree<<A::TsValue as View>::V>>::empty());
        while rest.len() > 0
            invariant
                k + rest@.len() == n,
                n == accs.len(),
                accs == accounts_of(self@),
                forall|j: int| 0 <= j < rest@.len() ==> #[trigger] rest@[j].1.tree() == accs[k + j],
                flat_into::<A::TsValue>(Seq::empty(), accs.take(k as int)) == Some(res@),
            decreases rest@.len(),
        {
            let ghost b = rest@;
            let (_, acc) = rest.remove(0);
            proof {
                assert(b[0].1.tree() == accs[k as int]);
                assert forall|j: int| 0 <= j < rest@.len() implies #[trigger] rest@[j].1.tree() == accs[k + 1 + j] by {
                    assert(rest@[j] == b[j + 1]);
                }
                assert(accs.take(k + 1).drop_last() =~= accs.take(k as int));
                assert(accs.take(k + 1).last() == accs[k as int]);
            }
            let ghost av = acc.tree();
            let flats = match acc.to_flat() {
                Some(f) => f,
                None => {
                    proof {
                        assert(flat_into::<A::TsValue>(Seq::empty(), accs.take(k + 1)) is None);
                        lemma_flat_into_stops::<A::TsValue>(accs, k + 1);
                    }
                    return None;
                },
            };
            assert(flats@.map_values(|a: FlatAccountView<A::TsValue>| a.tree()) =~= fviews(flats@));
            res = match res.add_all_checked(flats) {
                Some(r) => r,
                None => {
                    proof {
                        assert(flat_into::<A::TsValue>(Seq::empty(), accs.take(k + 1)) is None);
                        lemma_flat_into_stops::<A::TsValue>(accs, k + 1);
                    }
                    return None;
                },
            };
            k = k + 1;
        }
        assert(accs.take(n as int) =~= accs);
        Some(res)
    }

    /// The fully hierarchical balance: each account made fully
    /// hierarchical (see `hier_tree`) and added, one after the other;
    /// `None` where a sum overflows.
    pub fn to_hier(self) -> (r: Option<BalanceView<HierAccountView<A::TsValue>>>)
        requires
            all_named(self@),
        ensures
            r is Some <==> hier_into::<A::TsValue>(Seq::empty(), accounts_of(self@)) is Some,
            r matches Some(b) ==> Some(b@) == hier_into::<A::TsValue>(Seq::empty(), accounts_of(self@)),
    {
        let ghost v = self@;
        let ghost accs = accounts_of(self@);
        let mut res: BalanceView<HierAccountView<A::TsValue>> = BalanceView::new();
        let mut rest = self.into_accounts();
        let n: usize = rest.len();
        let mut k: usize = 0;
        assert(accs.take(0) =~= Seq::<AccTree<<A::TsValue as View>::V>>::empty());
        while rest.len() > 0
            invariant
                k + rest@.len() == n,
                n == accs.len(),
                accs == accounts_of(v),
                v == self@,
                all_named(v),
                v.len() == n,
                forall|j: int| 0 <= j < rest@.len() ==> #[trigger] rest@[j].1.tree() == accs[k + j],
                hier_into::<A::TsValue>(Seq::empty(), accs.take(k as int)) == Some(res@),
            decreases rest@.len(),
        {
            let ghost b = rest@;
            let (_, acc) = rest.remove(0);
            proof {
                assert(b[0].1.tree() == accs[k as int]);
                assert forall|j: int| 0 <= j < rest@.len() implies #[trigger] rest@[j].1.tree() == accs[k + 1 + j] by {
                    assert(rest@[j] == b[j + 1]);
                }
                assert(accs.take(k + 1).drop_last() =~= accs.take(k as int));
                assert(accs.take(k + 1).last() == accs[k as int]);
                assert(accs[k as int] == v[k as int].1);
                assert(v[k as int].1.name.len() > 0 && subs_named(v[k as int].1));
            }
            let h = acc.to_hier().unwrap();
            res = match res.add_checked(h) {
                Some(r) => r,
                None => {
                    proof {
                        assert(hier_into::<A::TsValue>(Seq::empty(), accs.take(k + 1)) is None);
                        lemma_hier_into_stops::<A::TsValue>(accs, k + 1);
                    }
                    return None;
                },
            };
            k = k + 1;
        }
        assert(accs.take(n as int) =~= accs);
        Some(res)
    }

    /// The compact balance: the fully hierarchical balance with each
    /// account compacted (see `compact_tree`), under its key there; `None`
    /// where a sum overflows.
    pub fn to_compact(self) -> (r: Option<BalanceView<CompactAccountView<A::TsValue>>>)
        requires
            all_named(self@),
        ensures
            r is Some <==> (match hier_into::<A::TsValue>(Seq::empty(), accounts_of(self@)) {
                Some(h) => compact_all::<A::TsValue>(h) is Some,
                None => false,
            }),
            r matches Some(b) ==> Some(b@) == compact_all::<A::TsValue>(
                hier_into::<A::TsValue>(Seq::empty(), accounts_of(self@)).unwrap(),
            ),
    {
        let h = match self.to_hier() {
            Some(h) => h,
            None => return None,
        };
        compact_balance(h)
    }
}

/// Each account compacted (see `compact_tree`), under the same key.
fn compact_balance<T: Arithmetic>(h: BalanceView<HierAccountView<T>>) -> (r: Option<BalanceView<CompactAccountView<T>>>)
    ensures
        r is Some <==> compact_all::<T>(h@) is Some,
        r matches Some(b) ==> Some(b@) == compact_all::<T>(h@),
{
    let ghost hv = h@;
    let mut rest = h.into_accounts();
    let n: usize = rest.len();
    let mut out: Vec<(AccName, CompactAccountView<T>)> = Vec::new();
    let mut k: usize = 0;
    assert(hv.take(0) =~= Seq::<Keyed<T::V>>::empty());
    assert(out@.map_values(|p: (AccName, CompactAccountView<T>)| (p.0@, p.1.tree())) =~= Seq::<Keyed<T::V>>::empty());
    while rest.len() > 0
        invariant
            k + rest@.len() == n,
            n == hv.len(),
            hv == h@,
            keys_sorted(hv),
            forall|j: int| 0 <= j < rest@.len() ==> (#[trigger] rest@[j]).0@ == hv[k + j].0 && rest@[j].1.tree() == hv[k + j].1,
            compact_all::<T>(hv.take(k as int)) == Some(out@.map_values(|p: (AccName, CompactAccountView<T>)| (p.0@, p.1.tree()))),
        decreases rest@.len(),
    {
        let ghost b = rest@;
        let (key, mut acc) = rest.remove(0);
        proof {
            assert(b[0].0@ == hv[k as int].0 && b[0].1.tree() == hv[k as int].1);
            assert forall|j: int| 0 <= j < rest@.len() implies (#[trigger] rest@[j]).0@ == hv[k + 1 + j].0 && rest@[j].1.tree() == hv[k + 1 + j].1 by {
                assert(rest@[j] == b[j + 1]);
            }
            assert(hv.take(k + 1).drop_last() =~= hv.take(k as int));
            assert(hv.take(k + 1).last() == hv[k as int]);
        }
        let ghost before = out@.map_values(|p: (AccName, CompactAccountView<T>)| (p.0@, p.1.tree()));
        let c = match merge_sub_accounts_checked(&mut acc) {
            Some(c) => c,
            None => {
                proof {
                    assert(compact_all::<T>(hv.take(k + 1)) is None);
                    lemma_compact_all_stops::<T>(hv, k + 1);
                }
                return None;
            },
        };
        let ghost cv = c.tree();
        out.push((key, c));
        assert(out@.map_values(|p: (AccName, CompactAccountView<T>)| (p.0@, p.1.tree())) =~= before.push((hv[k as int].0, cv)));
        k = k + 1;
    }
    assert(hv.take(n as int) =~= hv);
    let ghost ov = out@.map_values(|p: (AccName, CompactAccountView<T>)| (p.0@, p.1.tree()));
    proof {
        lemma_compact_all_keys::<T>(hv);
        assert forall|a: int, b: int| 0 <= a < b < ov.len() implies seq_lt(#[trigger] ov[a].0, #[trigger] ov[b].0) by {
            assert(seq_lt(hv[a].0, hv[b].0));
        }
    }
    Some(BalanceView { accnts: out })
}

proof fn lemma_compact_all_keys<T: Arithmetic>(s: Seq<Keyed<T::V>>)
    ensures
        compact_all::<T>(s) matches Some(t) ==> t.len() == s.len() && forall|i: int|
            0 <= i < s.len() ==> #[trigger] t[i].0 == s[i].0,
    decreases s.len(),
{
    if s.len() > 0 {
        lemma_compact_all_keys::<T>(s.drop_last());
    }
}

proof fn lemma_compact_all_stops<T: Arithmetic>(s: Seq<Keyed<T::V>>, n: int)
    requires
        0 <= n <= s.len(),
        compact_all::<T>(s.take(n)) is None,
    ensures
        compact_all::<T>(s) is None,
    decreases s.len(),
{
    if n < s.len() {
        let init = s.drop_last();
        assert(init.take(n) =~= s.take(n));
        lemma_compact_all_stops::<T>(init, n);
    } else {
        assert(s.take(n) =~= s);
    }
}

proof fn lemma_add_all_stops<A: AccountView>(s: Seq<Keyed<<A::TsValue as View>::V>>, xs: Seq<AccTree<<A::TsValue as View>::V>>, n: int)
    requires
        0 <= n <= xs.len(),
        bv_add_all::<A>(s, xs.take(n)) is None,
    ensures
        bv_add_all::<A>(s, xs) is None,
    decreases xs.len(),
{
    if n < xs.len() {
        let init = xs.drop_last();
        assert(init.take(n) =~= xs.take(n));
        lemma_add_all_stops::<A>(s, init, n);
    } else {
        assert(xs.take(n) =~= xs);
    }
}

proof fn lemma_bal_sum_stops<T: Arithmetic>(s: Seq<AccTree<T::V>>, n: int)
    requires
        0 <= n <= s.len(),
        bal_sum::<T>(s.take(n)) is None,
    ensures
        bal_sum::<T>(s) is None,
    decreases s.len(),
{
    if n < s.len() {
        let init = s.drop_last();
        assert(init.take(n) =~= s.take(n));
        lemma_bal_sum_stops::<T>(init, n);
    } else {
        assert(s.take(n) =~= s);
    }
}

proof fn lemma_flat_into_stops<T: Arithmetic>(accs: Seq<AccTree<T::V>>, n: int)
    requires
        0 <= n <= accs.len(),
        flat_into::<T>(Seq::empty(), accs.take(n)) is None,
    ensures
        flat_into::<T>(Seq::empty(), accs) is None,
    decreases accs.len(),
{
    if n < accs.len() {
        let init = accs.drop_last();
        assert(init.take(n) =~= accs.take(n));
        lemma_flat_into_stops::<T>(init, n);
    } else {
        assert(accs.take(n) =~= accs);
    }
}

proof fn lemma_hier_into_stops<T: Arithmetic>(accs: Seq<AccTree<T::V>>, n: int)
    requires
        0 <= n <= accs.len(),
        hier_into::<T>(Seq::empty(), accs.take(n)) is None,
    ensures
        hier_into::<T>(Seq::empty(), accs) is None,
    decreases accs.len(),
{
    if n < accs.len() {
        let init = accs.drop_last();
        assert(init.take(n) =~= accs.take(n));
        lemma_hier_into_stops::<T>(init, n);
    } else {
        assert(accs.take(n) =~= accs);
    }
}

/// Each account of `s` cut below depth `k` (see `limit_tree`).
pub open spec fn limit_all<B>(s: Seq<Keyed<B>>, k: nat) -> Seq<Keyed<B>> {
    s.map_values(|p: Keyed<B>| (p.0, limit_tree(p.1, k)))
}

/// The accounts of `s` whose balance is not zero.
pub open spec fn nonzero_flat<T: Arithmetic>(s: Seq<Keyed<T::V>>) -> Seq<Keyed<T::V>>
    decreases s.len(),
{
    if s.len() == 0 {
        Seq::empty()
    } else if T::zero_spec(s.last().1.bal) {
        nonzero_flat::<T>(s.drop_last())
    } else {
        nonzero_flat::<T>(s.drop_last()).push(s.last())
    }
}

/// The accounts of `s` whose balance is not zero, each without its
/// sub-accounts whose balance is zero (see `drop_zero_tree`).
pub open spec fn nonzero_hier<T: Arithmetic>(s: Seq<Keyed<T::V>>) -> Seq<Keyed<T::V>>
    decreases s.len(),
{
    if s.len() == 0 {
        Seq::empty()
    } else if T::zero_spec(s.last().1.bal) {
        nonzero_hier::<T>(s.drop_last())
    } else {
        nonzero_hier::<T>(s.drop_last()).push((s.last().0, drop_zero_tree::<T>(s.last().1)))
    }
}

/// The accounts of `s` that are not empty (see `kept`), each without its
/// sub-accounts whose balance is zero.
pub open spec fn nonempty_compact<T: Arithmetic>(s: Seq<Keyed<T::V>>) -> Seq<Keyed<T::V>>
    decreases s.len(),
{
    if s.len() == 0 {
        Seq::empty()
    } else if !kept::<T>(s.last().1) {
        nonempty_compact::<T>(s.drop_last())
    } else {
        nonempty_compact::<T>(s.drop_last()).push((s.last().0, drop_zero_tree::<T>(s.last().1)))
    }
}

/// Every key of `t` comes before the keys of `s` from position `k` on.
pub open spec fn keys_before<B>(t: Seq<Keyed<B>>, s: Seq<Keyed<B>>, k: int) -> bool {
    forall|j: int, m: int| 0 <= j < t.len() && k <= m < s.len() ==> seq_lt(#[trigger] t[j].0, #[trigger] s[m].0)
}

/// A sorted sequence whose keys come before those of sorted `s` from `k`
/// on stays sorted with the account of `s[k]`'s key pushed.
proof fn lemma_push_sorted<B>(t: Seq<Keyed<B>>, s: Seq<Keyed<B>>, k: int, x: Keyed<B>)
    requires
        keys_sorted(s),
        keys_sorted(t),
        0 <= k < s.len(),
        keys_before(t, s, k),
        x.0 == s[k].0,
    ensures
        keys_sorted(t.push(x)),
        keys_before(t.push(x), s, k + 1),
{
    let u = t.push(x);
    assert forall|a: int, b: int| 0 <= a < b < u.len() implies seq_lt(#[trigger] u[a].0, #[trigger] u[b].0) by {
        if b == u.len() - 1 {
            assert(u[a] == t[a]);
            assert(seq_lt(t[a].0, s[k].0));
        } else {
            assert(u[a] == t[a] && u[b] == t[b]);
        }
    }
    assert forall|j: int, m: int| 0 <= j < u.len() && k + 1 <= m < s.len() implies seq_lt(#[trigger] u[j].0, #[trigger] s[m].0) by {
        if j < t.len() {
            assert(u[j] == t[j]);
        } else {
            assert(seq_lt(s[k].0, s[m].0));
        }
    }
}

impl<T: Arithmetic> BalanceView<FlatAccountView<T>> {
    /// Removes the accounts with a zero balance.
    pub fn remove_empty_accounts(&mut self)
        ensures
            final(self)@ == nonzero_flat::<T>(old(self)@),
    {
        let mut t = BalanceView::new();
        std::mem::swap(self, &mut t);
        let ghost v = t@;
        let mut rest = t.into_accounts();
        let n: usize = rest.len();
        let mut out: Vec<(AccName, FlatAccountView<T>)> = Vec::new();
        let mut k: usize = 0;
        assert(v.take(0) =~= Seq::<Keyed<T::V>>::empty());
        assert(out@.map_values(|p: (AccName, FlatAccountView<T>)| (p.0@, p.1.tree())) =~= Seq::<Keyed<T::V>>::empty());
        while rest.len() > 0
            invariant
                k + rest@.len() == n,
                n == v.len(),
                keys_sorted(v),
                forall|j: int| 0 <= j < rest@.len() ==> (#[trigger] rest@[j]).0@ == v[k + j].0 && rest@[j].1.tree() == v[k + j].1,
                out@.map_values(|p: (AccName, FlatAccountView<T>)| (p.0@, p.1.tree())) == nonzero_flat::<T>(v.take(k as int)),
                keys_sorted(out@.map_values(|p: (AccName, FlatAccountView<T>)| (p.0@, p.1.tree()))),
                keys_before(out@.map_values(|p: (AccName, FlatAccountView<T>)| (p.0@, p.1.tree())), v, k as int),
            decreases rest@.len(),
        {
            let ghost b = rest@;
            let (key, acc) = rest.remove(0);
            proof {
                assert(b[0].0@ == v[k as int].0 && b[0].1.tree() == v[k as int].1);
                assert forall|j: int| 0 <= j < rest@.len() implies (#[trigger] rest@[j]).0@ == v[k + 1 + j].0 && rest@[j].1.tree() == v[k + 1 + j].1 by {
                    assert(rest@[j] == b[j + 1]);
                }
                assert(v.take(k + 1).drop_last() =~= v.take(k as int));
                assert(v.take(k + 1).last() == v[k as int]);
            }
            let ghost before = out@.map_values(|p: (AccName, FlatAccountView<T>)| (p.0@, p.1.tree()));
            if !acc.balance().test_zero() {
                let ghost x = (key@, acc.tree());
                out.push((key, acc));
                proof {
                    assert(out@.map_values(|p: (AccName, FlatAccountView<T>)| (p.0@, p.1.tree())) =~= before.push(x));
                    lemma_push_sorted(before, v, k as int, x);
                }
            }
            k = k + 1;
        }
        assert(v.take(n as int) =~= v);
        *self = BalanceView { accnts: out };
    }
}

impl<T: Arithmetic> BalanceView<HierAccountView<T>> {
    /// Removes the accounts with a zero balance, and from those that stay
    /// the sub-accounts with a zero balance, all the way down.
    pub fn remove_zero_accounts(&mut self)
        ensures
            final(self)@ == nonzero_hier::<T>(old(self)@),
    {
        let mut t = BalanceView::new();
        std::mem::swap(self, &mut t);
        let ghost v = t@;
        let mut rest = t.into_accounts();
        let n: usize = rest.len();
        let mut out: Vec<(AccName, HierAccountView<T>)> = Vec::new();
        let mut k: usize = 0;
        assert(v.take(0) =~= Seq::<Keyed<T::V>>::empty());
        assert(out@.map_values(|p: (AccName, HierAccountView<T>)| (p.0@, p.1.tree())) =~= Seq::<Keyed<T::V>>::empty());
        while rest.len() > 0
            invariant
                k + rest@.len() == n,
                n == v.len(),
                keys_sorted(v),
                forall|j: int| 0 <= j < rest@.len() ==> (#[trigger] rest@[j]).0@ == v[k + j].0 && rest@[j].1.tree() == v[k + j].1,
                out@.map_values(|p: (AccName, HierAccountView<T>)| (p.0@, p.1.tree())) == nonzero_hier::<T>(v.take(k as int)),
                keys_sorted(out@.map_values(|p: (AccName, HierAccountView<T>)| (p.0@, p.1.tree()))),
                keys_before(out@.map_values(|p: (AccName, HierAccountView<T>)| (p.0@, p.1.tree())), v, k as int),
            decreases rest@.len(),
        {
            let ghost b = rest@;
            let (key, mut acc) = rest.remove(0);
            proof {
                assert(b[0].0@ == v[k as int].0 && b[0].1.tree() == v[k as int].1);
                assert forall|j: int| 0 <= j < rest@.len() implies (#[trigger] rest@[j]).0@ == v[k + 1 + j].0 && rest@[j].1.tree() == v[k + 1 + j].1 by {
                    assert(rest@[j] == b[j + 1]);
                }
                assert(v.take(k + 1).drop_last() =~= v.take(k as int));
                assert(v.take(k + 1).last() == v[k as int]);
            }
            let ghost before = out@.map_values(|p: (AccName, HierAccountView<T>)| (p.0@, p.1.tree()));
            acc.remove_zero_sub_accounts();
            if !acc.is_zero() {
                let ghost x = (key@, acc.tree());
                out.push((key, acc));
                proof {
                    assert(out@.map_values(|p: (AccName, HierAccountView<T>)| (p.0@, p.1.tree())) =~= before.push(x));
                    lemma_push_sorted(before, v, k as int, x);
                }
            }
            k = k + 1;
        }
        assert(v.take(n as int) =~= v);
        *self = BalanceView { accnts: out };
    }

    /// Keeps the accounts down to depth `depth` (`0` keeps them all).
    pub fn limit_accounts_depth(self, depth: usize) -> (r: Self)
        ensures
            depth == 0 ==> r@ == self@,
            depth > 0 ==> r@ == limit_all(self@, depth as nat),
    {
        if depth == 0 {
            return self;
        }
        proof {
            use_type_invariant(&self);
        }
        let ghost v = self@;
        let mut rest = self.into_accounts();
        let n: usize = rest.len();
        let mut out: Vec<(AccName, HierAccountView<T>)> = Vec::new();
        let mut k: usize = 0;
        while rest.len() > 0
            invariant
                k + rest@.len() == n,
                n == v.len(),
                depth > 0,
                forall|j: int| 0 <= j < rest@.len() ==> (#[trigger] rest@[j]).0@ == v[k + j].0 && rest@[j].1.tree() == v[k + j].1,
                out@.len() == k,
                forall|j: int| 0 <= j < k ==> (#[trigger] out@[j]).0@ == v[j].0 && out@[j].1.tree() == limit_tree(v[j].1, depth as nat),
            decreases rest@.len(),
        {
            let ghost b = rest@;
            let (key, mut acc) = rest.remove(0);
            proof {
                assert(b[0].0@ == v[k as int].0 && b[0].1.tree() == v[k as int].1);
                assert forall|j: int| 0 <= j < rest@.len() implies (#[trigger] rest@[j]).0@ == v[k + 1 + j].0 && rest@[j].1.tree() == v[k + 1 + j].1 by {
                    assert(rest@[j] == b[j + 1]);
                }
            }
            limit_accounts_depth(&mut acc, depth);
            out.push((key, acc));
            k = k + 1;
        }
        let ghost ov = out@.map_values(|p: (AccName, HierAccountView<T>)| (p.0@, p.1.tree()));
        assert(ov =~= limit_all(v, depth as nat));
        assert forall|a: int, b: int| 0 <= a < b < ov.len() implies seq_lt(#[trigger] ov[a].0, #[trigger] ov[b].0) by {
            assert(seq_lt(v[a].0, v[b].0));
        }
        BalanceView { accnts: out }
    }
}

impl<T: Arithmetic> BalanceView<CompactAccountView<T>> {
    /// Removes the empty accounts (a zero balance and no sub-accounts),
    /// and from those that stay the sub-accounts with a zero balance, all
    /// the way down.
    pub fn remove_empty_accounts(&mut self)
        ensures
            final(self)@ == nonempty_compact::<T>(old(self)@),
    {
        let mut t = BalanceView::new();
        std::mem::swap(self, &mut t);
        let ghost v = t@;
        let mut rest = t.into_accounts();
        let n: usize = rest.len();
        let mut out: Vec<(AccName, CompactAccountView<T>)> = Vec::new();
        let mut k: usize = 0;
        assert(v.take(0) =~= Seq::<Keyed<T::V>>::empty());
        assert(out@.map_values(|p: (AccName, CompactAccountView<T>)| (p.0@, p.1.tree())) =~= Seq::<Keyed<T::V>>::empty());
        while rest.len() > 0
            invariant
                k + rest@.len() == n,
                n == v.len(),
                keys_sorted(v),
                forall|j: int| 0 <= j < rest@.len() ==> (#[trigger] rest@[j]).0@ == v[k + j].0 && rest@[j].1.tree() == v[k + j].1,
                out@.map_values(|p: (AccName, CompactAccountView<T>)| (p.0@, p.1.tree())) == nonempty_compact::<T>(v.take(k as int)),
                keys_sorted(out@.map_values(|p: (AccName, CompactAccountView<T>)| (p.0@, p.1.tree()))),
                keys_before(out@.map_values(|p: (AccName, CompactAccountView<T>)| (p.0@, p.1.tree())), v, k as int),
            decreases rest@.len(),
        {
            let ghost b = rest@;
            let (key, mut acc) = rest.remove(0);
            proof {
                assert(b[0].0@ == v[k as int].0 && b[0].1.tree() == v[k as int].1);
                assert forall|j: int| 0 <= j < rest@.len() implies (#[trigger] rest@[j]).0@ == v[k + 1 + j].0 && rest@[j].1.tree() == v[k + 1 + j].1 by {
                    assert(rest@[j] == b[j + 1]);
                }
                assert(v.take(k + 1).drop_last() =~= v.take(k as int));
                assert(v.take(k + 1).last() == v[k as int]);
            }
            let ghost before = out@.map_values(|p: (AccName, CompactAccountView<T>)| (p.0@, p.1.tree()));
            if !acc.balance().test_zero() || acc.sub_accounts().len() > 0 {
                acc.remove_zero_sub_accounts();
                let ghost x = (key@, acc.tree());
                out.push((key, acc));
                proof {
                    assert(out@.map_values(|p: (AccName, CompactAccountView<T>)| (p.0@, p.1.tree())) =~= before.push(x));
                    lemma_push_sorted(before, v, k as int, x);
                }
            }
            k = k + 1;
        }
        assert(v.take(n as int) =~= v);
        *self = BalanceView { accnts: out };
    }
}

/// Each account of `s` priced under valuation `val` (see `tree_valued`),
/// under the same key.
pub open spec fn valued_all<V: Valuable + Arithmetic>(s: Seq<Keyed<Map<Date, V::V>>>, val: Valuation) -> Seq<
    Keyed<Map<Date, Seq<Entry>>>,
> {
    s.map_values(|p: Keyed<Map<Date, V::V>>| (p.0, tree_valued::<V>(p.1, val)))
}

/// Every account of `s` can be priced under valuation `val`.
pub open spec fn valued_all_ok<V: Valuable + Arithmetic>(s: Seq<Keyed<Map<Date, V::V>>>, val: Valuation) -> bool {
    forall|i: int| 0 <= i < s.len() ==> tree_value_ok::<V>(#[trigger] s[i].1, val)
}

impl<A: AccountView> BalanceView<A> {
    /// The balance with the accounts of `rhs` added, one after the other
    /// (see `bv_add_all`); `None` where a sum overflows.
    pub fn add_balance_checked(self, rhs: BalanceView<A>) -> (r: Option<Self>)
        ensures
            r is Some <==> bv_add_all::<A>(self@, accounts_of(rhs@)) is Some,
            r matches Some(b) ==> Some(b@) == bv_add_all::<A>(self@, accounts_of(rhs@)),
    {
        let ghost rv = rhs@;
        let accs = rhs.into_accounts();
        let mut xs: Vec<A> = Vec::new();
        let mut rest = accs;
        let ghost all = rest@;
        let n: usize = rest.len();
        let mut k: usize = 0;
        while rest.len() > 0
            invariant
                k + rest@.len() == n,
                n == all.len(),
                all.map_values(|p: (AccName, A)| (p.0@, p.1.tree())) == rv,
                rest@ == all.subrange(k as int, n as int),
                xs@.len() == k,
                forall|j: int| 0 <= j < k ==> (#[trigger] xs@[j]).tree() == all[j].1.tree(),
            decreases rest@.len(),
        {
            let ghost b = rest@;
            let (_, a) = rest.remove(0);
            assert(b[0] == all[k as int]);
            assert(rest@ =~= all.subrange(k + 1, n as int));
            xs.push(a);
            k = k + 1;
        }
        assert(xs@.map_values(|a: A| a.tree()) =~= accounts_of(rv));
        self.add_all_checked(xs)
    }

    /// Adds the accounts of `rhs`, one after the other (see
    /// `bv_add_all`).
    pub fn add_assign_balance(&mut self, rhs: BalanceView<A>)
        requires
            bv_add_all::<A>(old(self)@, accounts_of(rhs@)) is Some,
        ensures
            Some(final(self)@) == bv_add_all::<A>(old(self)@, accounts_of(rhs@)),
    {
        let mut t = BalanceView::new();
        std::mem::swap(self, &mut t);
        *self = t.add_balance_checked(rhs).unwrap();
    }
}

impl<T: Arithmetic> BalanceView<FlatAccountView<T>> {
    /// The balance with the flat accounts of `rhs` (see `flat_of`) added
    /// one after the other; `None` where a sum overflows.
    pub fn add_hier_checked(self, rhs: HierAccountView<T>) -> (r: Option<Self>)
        ensures
            r is Some <==> (match flat_of::<T>(rhs@, rhs@.name) {
                Some(fs) => bv_add_all::<FlatAccountView<T>>(self@, fs) is Some,
                None => false,
            }),
            r matches Some(b) ==> Some(b@) == bv_add_all::<FlatAccountView<T>>(
                self@,
                flat_of::<T>(rhs@, rhs@.name).unwrap(),
            ),
    {
        let flats = match rhs.to_flat() {
            Some(f) => f,
            None => return None,
        };
        assert(flats@.map_values(|a: FlatAccountView<T>| a.tree()) =~= fviews(flats@));
        self.add_all_checked(flats)
    }

    /// Adds the flat accounts of `rhs` one after the other.
    pub fn add_assign_hier(&mut self, rhs: HierAccountView<T>)
        requires
            flat_of::<T>(rhs@, rhs@.name) is Some,
            bv_add_all::<FlatAccountView<T>>(old(self)@, flat_of::<T>(rhs@, rhs@.name).unwrap()) is Some,
        ensures
            Some(final(self)@) == bv_add_all::<FlatAccountView<T>>(
                old(self)@,
                flat_of::<T>(rhs@, rhs@.name).unwrap(),
            ),
    {
        let mut t = BalanceView::new();
        std::mem::swap(self, &mut t);
        *self = t.add_hier_checked(rhs).unwrap();
    }

    /// Keeps the accounts down to depth `depth` (`0` keeps them all): the
    /// balance made fully hierarchical, each account cut below the depth,
    /// made flat again; `None` where a sum overflows.
    pub fn limit_accounts_depth(self, depth: usize) -> (r: Option<Self>)
        requires
            all_named(self@),
        ensures
            depth == 0 ==> r == Some(self),
            depth > 0 ==> (r is Some <==> match hier_into::<T>(Seq::empty(), accounts_of(self@)) {
                Some(h) => flat_into::<T>(Seq::empty(), accounts_of(limit_all(h, depth as nat))) is Some,
                None => false,
            }),
            depth > 0 ==> (r matches Some(b) ==> Some(b@) == flat_into::<T>(
                Seq::empty(),
                accounts_of(limit_all(hier_into::<T>(Seq::empty(), accounts_of(self@)).unwrap(), depth as nat)),
            )),
    {
        if depth == 0 {
            return Some(self);
        }
        let h = match self.to_hier() {
            Some(h) => h,
            None => return None,
        };
        h.limit_accounts_depth(depth).to_flat()
    }
}

impl<T: Arithmetic> BalanceView<HierAccountView<T>> {
    /// The balance with `rhs` made fully hierarchical (see `hier_tree`)
    /// and added; `None` where a sum overflows.
    pub fn add_flat_checked(self, rhs: FlatAccountView<T>) -> (r: Option<Self>)
        requires
            rhs@.name.len() > 0,
        ensures
            r is Some <==> bv_add::<HierAccountView<T>>(self@, hier_tree(rhs@)) is Some,
            r matches Some(b) ==> Some(b@) == bv_add::<HierAccountView<T>>(self@, hier_tree(rhs@)),
    {
        rhs.check();
        assert(subs_named(rhs.tree()));
        let h = rhs.to_hier().unwrap();
        self.add_checked(h)
    }

    /// Adds `rhs` made fully hierarchical (see `hier_tree`).
    pub fn add_assign_flat(&mut self, rhs: FlatAccountView<T>)
        requires
            rhs@.name.len() > 0,
            bv_add::<HierAccountView<T>>(old(self)@, hier_tree(rhs@)) is Some,
        ensures
            Some(final(self)@) == bv_add::<HierAccountView<T>>(old(self)@, hier_tree(rhs@)),
    {
        let mut t = BalanceView::new();
        std::mem::swap(self, &mut t);
        *self = t.add_flat_checked(rhs).unwrap();
    }
}

impl<T: Arithmetic> BalanceView<CompactAccountView<T>> {
    /// Keeps the accounts down to depth `depth` (`0` keeps them all): the
    /// balance made fully hierarchical, each account cut below the depth,
    /// compacted again; `None` where a sum overflows.
    pub fn limit_accounts_depth(self, depth: usize) -> (r: Option<Self>)
        requires
            all_named(self@),
            match hier_into::<T>(Seq::empty(), accounts_of(self@)) {
                Some(h) => all_named(limit_all(h, depth as nat)),
                None => true,
            },
        ensures
            depth == 0 ==> r == Some(self),
            depth > 0 ==> (r is Some <==> match hier_into::<T>(Seq::empty(), accounts_of(self@)) {
                Some(h) => match hier_into::<T>(Seq::empty(), accounts_of(limit_all(h, depth as nat))) {
                    Some(h2) => compact_all::<T>(h2) is Some,
                    None => false,
                },
                None => false,
            }),
            depth > 0 ==> (r matches Some(b) ==> Some(b@) == compact_all::<T>(
                hier_into::<T>(
                    Seq::empty(),
                    accounts_of(limit_all(hier_into::<T>(Seq::empty(), accounts_of(self@)).unwrap(), depth as nat)),
                ).unwrap(),
            )),
    {
        if depth == 0 {
            return Some(self);
        }
        let h = match self.to_hier() {
            Some(h) => h,
            None => return None,
        };
        h.limit_accounts_depth(depth).to_compact()
    }
}

impl<V: Valuable + Arithmetic> BalanceView<HierAccountView<TAmount<V>>> {
    /// Every account priced under valuation `val` (see `tree_valued`);
    /// `None` where a price overflows.
    pub fn valued_in(&self, val: Valuation) -> (r: Option<BalanceView<HierAccountView<TAmount<Amount>>>>)
        ensures
            r is Some <==> valued_all_ok::<V>(self@, val),
            r matches Some(b) ==> b@ == valued_all::<V>(self@, val),
    {
        proof {
            use_type_invariant(self);
        }
        let ghost v = self@;
        let mut out: Vec<(AccName, HierAccountView<TAmount<Amount>>)> = Vec::new();
        let mut k: usize = 0;
        while k < self.accnts.len()
            invariant
                k <= self.accnts@.len(),
                v == self@,
                v.len() == self.accnts@.len(),
                forall|j: int| 0 <= j < v.len() ==> #[trigger] v[j] == (self.accnts@[j].0@, self.accnts@[j].1.tree()),
                out@.len() == k,
                forall|j: int| 0 <= j < k ==> tree_value_ok::<V>(#[trigger] v[j].1, val),
                forall|j: int| 0 <= j < k ==> (#[trigger] out@[j]).0@ == v[j].0 && out@[j].1.tree() == tree_valued::<V>(v[j].1, val),
            decreases self.accnts@.len() - k,
        {
            assert(v[k as int] == (self.accnts@[k as int].0@, self.accnts@[k as int].1.tree()));
            let x = match self.accnts[k].1.valued_in(val) {
                Some(x) => x,
                None => {
                    assert(!tree_value_ok::<V>(v[k as int].1, val));
                    return None;
                },
            };
            out.push((self.accnts[k].0.duplicate(), x));
            k = k + 1;
        }
        let ghost ov = out@.map_values(|p: (AccName, HierAccountView<TAmount<Amount>>)| (p.0@, p.1.tree()));
        assert(ov =~= valued_all::<V>(v, val));
        assert forall|a: int, b: int| 0 <= a < b < ov.len() implies seq_lt(#[trigger] ov[a].0, #[trigger] ov[b].0) by {
            assert(seq_lt(v[a].0, v[b].0));
        }
        Some(BalanceView { accnts: out })
    }
}

impl<V: Valuable + Arithmetic> BalanceView<FlatAccountView<TAmount<V>>> {
    /// Every account priced under valuation `val` (see `tree_valued`);
    /// `None` where a price overflows.
    pub fn valued_in(&self, val: Valuation) -> (r: Option<BalanceView<FlatAccountView<TAmount<Amount>>>>)
        ensures
            r is Some <==> valued_all_ok::<V>(self@, val),
            r matches Some(b) ==> b@ == valued_all::<V>(self@, val),
    {
        proof {
            use_type_invariant(self);
        }
        let ghost v = self@;
        let mut out: Vec<(AccName, FlatAccountView<TAmount<Amount>>)> = Vec::new();
        let mut k: usize = 0;
        while k < self.accnts.len()
            invariant
                k <= self.accnts@.len(),
                v == self@,
                v.len() == self.accnts@.len(),
                forall|j: int| 0 <= j < v.len() ==> #[trigger] v[j] == (self.accnts@[j].0@, self.accnts@[j].1.tree()),
                out@.len() == k,
                forall|j: int| 0 <= j < k ==> tree_value_ok::<V>(#[trigger] v[j].1, val),
                forall|j: int| 0 <= j < k ==> (#[trigger] out@[j]).0@ == v[j].0 && out@[j].1.tree() == tree_valued::<V>(v[j].1, val),
            decreases self.accnts@.len() - k,
        {
            assert(v[k as int] == (self.accnts@[k as int].0@, self.accnts@[k as int].1.tree()));
            let x = match self.accnts[k].1.valued_in(val) {
                Some(x) => x,
                None => {
                    assert(!tree_value_ok::<V>(v[k as int].1, val));
                    return None;
                },
            };
            out.push((self.accnts[k].0.duplicate(), x));
            k = k + 1;
        }
        let ghost ov = out@.map_values(|p: (AccName, FlatAccountView<TAmount<Amount>>)| (p.0@, p.1.tree()));
        assert(ov =~= valued_all::<V>(v, val));
        assert forall|a: int, b: int| 0 <= a < b < ov.len() implies seq_lt(#[trigger] ov[a].0, #[trigger] ov[b].0) by {
            assert(seq_lt(v[a].0, v[b].0));
        }
        Some(BalanceView { accnts: out })
    }
}

impl<V: Valuable + Arithmetic> BalanceView<CompactAccountView<TAmount<V>>> {
    /// Every account priced under valuation `val` (see `tree_valued`);
    /// `None` where a price overflows.
    pub fn valued_in(&self, val: Valuation) -> (r: Option<BalanceView<CompactAccountView<TAmount<Amount>>>>)
        ensures
            r is Some <==> valued_all_ok::<V>(self@, val),
            r matches Some(b) ==> b@ == valued_all::<V>(self@, val),
    {
        proof {
            use_type_invariant(self);
        }
        let ghost v = self@;
        let mut out: Vec<(AccName, CompactAccountView<TAmount<Amount>>)> = Vec::new();
        let mut k: usize = 0;
        while k < self.accnts.len()
            invariant
                k <= self.accnts@.len(),
                v == self@,
                v.len() == self.accnts@.len(),
                forall|j: int| 0 <= j < v.len() ==> #[trigger] v[j] == (self.accnts@[j].0@, self.accnts@[j].1.tree()),
                out@.len() == k,
                forall|j: int| 0 <= j < k ==> tree_value_ok::<V>(#[trigger] v[j].1, val),
                forall|j: int| 0 <= j < k ==> (#[trigger] out@[j]).0@ == v[j].0 && out@[j].1.tree() == tree_valued::<V>(v[j].1, val),
            decreases self.accnts@.len() - k,
        {
            assert(v[k as int] == (self.accnts@[k as int].0@, self.accnts@[k as int].1.tree()));
            let x = match self.accnts[k].1.valued_in(val) {
                Some(x) => x,
                None => {
                    assert(!tree_value_ok::<V>(v[k as int].1, val));
                    return None;
                },
            };
            out.push((self.accnts[k].0.duplicate(), x));
            k = k + 1;
        }
        let ghost ov = out@.map_values(|p: (AccName, CompactAccountView<TAmount<Amount>>)| (p.0@, p.1.tree()));
        assert(ov =~= valued_all::<V>(v, val));
        assert forall|a: int, b: int| 0 <= a < b < ov.len() implies seq_lt(#[trigger] ov[a].0, #[trigger] ov[b].0) by {
            assert(seq_lt(v[a].0, v[b].0));
        }
        Some(BalanceView { accnts: out })
    }
}

impl<T: Arithmetic> BalanceView<FlatAccountView<T>> {
    /// Whether every account has a name.
    pub fn names_present(&self) -> (r: bool)
        ensures
            r == all_named(self@),
    {
        proof {
            use_type_invariant(self);
        }
        let ghost v = self@;
        let mut i: usize = 0;
        while i < self.accnts.len()
            invariant
                i <= self.accnts@.len(),
                v == self@,
                v.len() == self.accnts@.len(),
                forall|j: int| 0 <= j < v.len() ==> #[trigger] v[j] == (self.accnts@[j].0@, self.accnts@[j].1.tree()),
                forall|j: int| 0 <= j < i ==> (#[trigger] v[j]).1.name.len() > 0 && subs_named(v[j].1),
            decreases self.accnts@.len() - i,
        {
            let a = &self.accnts[i].1;
            a.check();
            assert(v[i as int] == (self.accnts@[i as int].0@, a.tree()));
            if a.name().is_empty() {
                return false;
            }
            assert(subs_named(a.tree()));
            i = i + 1;
        }
        true
    }
}

} // verus!
