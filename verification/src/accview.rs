//! Views of accounts and their balances: flat (one account per full
//! name), fully hierarchical (one account per part of the name, each with
//! its sub-accounts) and compact (a chain of single sub-accounts with the
//! same balance shown as one account).

use vstd::prelude::*;

use crate::catalog::seq_lt;
use crate::journal::{append_spec, is_first_sep, AccName};
use crate::amount::{Amount, Entry};
use crate::ntypes::{Arithmetic, Valuable};
use crate::report::Valuation;
use crate::tamount::{ts_value_ok, TAmount};
use crate::date::Date;

verus! {

/// An account by value: its name, its balance and its sub-accounts.
pub struct AccTree<B> {
    pub name: Seq<char>,
    pub bal: B,
    pub subs: Seq<AccTree<B>>,
}

/// Sub-accounts in strict name order, all the way down.
pub open spec fn wf_tree<B>(t: AccTree<B>) -> bool
    decreases t,
{
    &&& forall|i: int, j: int|
        0 <= i < j < t.subs.len() ==> seq_lt(#[trigger] t.subs[i].name, #[trigger] t.subs[j].name)
    &&& forall|i: int| 0 <= i < t.subs.len() ==> wf_tree(#[trigger] t.subs[i])
}

/// The parts of `s` as `pop_parent_account` takes them off one after the
/// other: the part before the first separator, then the parts of the
/// rest; a name without separator is one part, the empty name none.
pub open spec fn pop_parts(s: Seq<char>) -> Seq<Seq<char>>
    decreases s.len(),
{
    if s.len() == 0 {
        Seq::empty()
    } else if exists|i: int| is_first_sep(s, i) {
        let i = choose|i: int| is_first_sep(s, i);
        seq![s.take(i)] + pop_parts(s.skip(i + 1))
    } else {
        seq![s]
    }
}

/// The chain of accounts named by `parts`, each the only sub-account of
/// the one before, all with balance `b`.
pub open spec fn chain<B>(parts: Seq<Seq<char>>, b: B) -> AccTree<B>
    decreases parts.len(),
{
    if parts.len() <= 1 {
        AccTree {
            name: if parts.len() == 1 {
                parts[0]
            } else {
                Seq::empty()
            },
            bal: b,
            subs: Seq::empty(),
        }
    } else {
        AccTree { name: parts[0], bal: b, subs: seq![chain(parts.drop_first(), b)] }
    }
}

proof fn lemma_first_sep_unique(s: Seq<char>, i: int, j: int)
    requires
        is_first_sep(s, i),
        is_first_sep(s, j),
    ensures
        i == j,
{
}

proof fn lemma_chain_wf<B>(parts: Seq<Seq<char>>, b: B)
    ensures
        wf_tree(chain(parts, b)),
    decreases parts.len(),
{
    if parts.len() > 1 {
        lemma_chain_wf(parts.drop_first(), b);
    }
}

/// An account with its full name and balance, without sub-accounts.
#[derive(Debug, PartialEq)]
pub struct FlatAccountView<T: Arithmetic> {
    acc_name: AccName,
    balance: T,
}

/// An account named by one part of a name, with its balance and its
/// sub-accounts in name order.
#[derive(Debug, PartialEq)]
pub struct HierAccountView<T: Arithmetic> {
    name: AccName,
    balance: T,
    sub_account: Vec<HierAccountView<T>>,
}

/// An account of a compact hierarchy: a chain of single sub-accounts with
/// the same balance is one account, named by the parts joined.
#[derive(Debug, PartialEq)]
pub struct CompactAccountView<T: Arithmetic> {
    name: AccName,
    balance: T,
    sub_account: Vec<CompactAccountView<T>>,
}

/// A hierarchical account by value.
pub closed spec fn hview<T: Arithmetic>(t: HierAccountView<T>) -> AccTree<T::V>
    decreases t, 0nat,
{
    AccTree { name: t.name@, bal: t.balance@, subs: hviews(t.sub_account@) }
}

/// Hierarchical accounts by value.
pub closed spec fn hviews<T: Arithmetic>(s: Seq<HierAccountView<T>>) -> Seq<AccTree<T::V>>
    decreases s, s.len(),
{
    if s.len() == 0 {
        Seq::empty()
    } else {
        hviews(s.drop_last()).push(hview(s.last()))
    }
}

/// A compact account by value.
pub closed spec fn cview<T: Arithmetic>(t: CompactAccountView<T>) -> AccTree<T::V>
    decreases t, 0nat,
{
    AccTree { name: t.name@, bal: t.balance@, subs: cviews(t.sub_account@) }
}

/// Compact accounts by value.
pub closed spec fn cviews<T: Arithmetic>(s: Seq<CompactAccountView<T>>) -> Seq<AccTree<T::V>>
    decreases s, s.len(),
{
    if s.len() == 0 {
        Seq::empty()
    } else {
        cviews(s.drop_last()).push(cview(s.last()))
    }
}

proof fn lemma_hviews<T: Arithmetic>(s: Seq<HierAccountView<T>>)
    ensures
        hviews(s).len() == s.len(),
        forall|i: int| 0 <= i < s.len() ==> #[trigger] hviews(s)[i] == hview(s[i]),
    decreases s.len(),
{
    if s.len() > 0 {
        lemma_hviews(s.drop_last());
    }
}

proof fn lemma_cviews<T: Arithmetic>(s: Seq<CompactAccountView<T>>)
    ensures
        cviews(s).len() == s.len(),
        forall|i: int| 0 <= i < s.len() ==> #[trigger] cviews(s)[i] == cview(s[i]),
    decreases s.len(),
{
    if s.len() > 0 {
        lemma_cviews(s.drop_last());
    }
}

impl<T: Arithmetic> View for FlatAccountView<T> {
    type V = AccTree<T::V>;

    closed spec fn view(&self) -> AccTree<T::V> {
        AccTree { name: self.acc_name@, bal: self.balance@, subs: Seq::empty() }
    }
}

impl<T: Arithmetic> View for HierAccountView<T> {
    type V = AccTree<T::V>;

    closed spec fn view(&self) -> AccTree<T::V> {
        hview(*self)
    }
}

impl<T: Arithmetic> View for CompactAccountView<T> {
    type V = AccTree<T::V>;

    closed spec fn view(&self) -> AccTree<T::V> {
        cview(*self)
    }
}

impl<T: Arithmetic> HierAccountView<T> {
    #[verifier::type_invariant]
    closed spec fn inv(&self) -> bool {
        wf_tree(self@)
    }
}

impl<T: Arithmetic> CompactAccountView<T> {
    #[verifier::type_invariant]
    closed spec fn inv(&self) -> bool {
        wf_tree(self@)
    }
}

/// The chain of accounts named by the parts of `name`, each with
/// `balance`: `Assets:Bank:Checking` gives `Assets`, with `Bank` under
/// it, with `Checking` under that. `None` for the empty name.
pub fn build_hier_account<T: Arithmetic>(name: AccName, balance: T) -> (r: Option<HierAccountView<T>>)
    ensures
        r is None <==> name@.len() == 0,
        r matches Some(t) ==> t@ == chain(pop_parts(name@), balance@),
    decreases name@.len(),
{
    let ghost s = name@;
    if name.is_empty() {
        return None;
    }
    let mut rest = name;
    match rest.pop_parent_account() {
        Some(p) => {
            proof {
                let i = choose|i: int| is_first_sep(s, i);
                let j = choose|j: int| is_first_sep(s, j) && p@ == s.take(j) && rest@ == s.skip(j + 1);
                lemma_first_sep_unique(s, i, j);
                assert(pop_parts(s) == seq![s.take(i)] + pop_parts(s.skip(i + 1)));
            }
            let bal2 = balance.copy_of();
            let sub = build_hier_account(rest, bal2);
            let mut subs: Vec<HierAccountView<T>> = Vec::new();
            match sub {
                Some(t) => {
                    proof {
                        use_type_invariant(&t);
                    }
                    subs.push(t);
                },
                None => {},
            }
            proof {
                lemma_hviews(subs@);
                let parts = pop_parts(s);
                assert(parts.len() >= 1);
                assert(parts.drop_first() =~= pop_parts(rest@));
                if parts.len() > 1 {
                    assert(hviews(subs@) =~= seq![chain(parts.drop_first(), balance@)]);
                } else {
                    assert(hviews(subs@) =~= Seq::<AccTree<T::V>>::empty());
                }
                assert(AccTree { name: p@, bal: balance@, subs: hviews(subs@) } == chain(parts, balance@));
                lemma_chain_wf(parts, balance@);
            }
            let r = HierAccountView { name: p, balance, sub_account: subs };
            Some(r)
        },
        None => {
            // the last part of the name: an account without sub-accounts
            let subs: Vec<HierAccountView<T>> = Vec::new();
            proof {
                assert(pop_parts(s) == seq![s]);
                lemma_hviews(subs@);
                assert(hviews(subs@) =~= Seq::<AccTree<T::V>>::empty());
                assert(AccTree { name: rest@, bal: balance@, subs: hviews(subs@) } == chain(pop_parts(s), balance@));
                lemma_chain_wf(pop_parts(s), balance@);
            }
            let r = HierAccountView { name: rest, balance, sub_account: subs };
            Some(r)
        },
    }
}

/// The number of accounts in `t`, itself included.
pub open spec fn tsize<B>(t: AccTree<B>) -> nat
    decreases t,
{
    1 + ssize(t.subs)
}

/// The number of accounts in the trees of `s`.
pub open spec fn ssize<B>(s: Seq<AccTree<B>>) -> nat
    decreases s,
{
    if s.len() == 0 {
        0
    } else {
        tsize(s[0]) + ssize(s.drop_first())
    }
}

/// The names of the trees of `s` strictly increase.
pub open spec fn names_sorted<B>(s: Seq<AccTree<B>>) -> bool {
    forall|i: int, j: int| 0 <= i < j < s.len() ==> seq_lt(#[trigger] s[i].name, #[trigger] s[j].name)
}

/// Every tree of `s` is well formed.
pub open spec fn all_wf<B>(s: Seq<AccTree<B>>) -> bool {
    forall|i: int| 0 <= i < s.len() ==> wf_tree(#[trigger] s[i])
}

/// `l` and `r` merged into one account named as `l`: the balances added,
/// sub-accounts of the same name merged, the others kept; `None` where a
/// sum overflows.
pub open spec fn tree_merge<T: Arithmetic>(l: AccTree<T::V>, r: AccTree<T::V>) -> Option<AccTree<T::V>>
    decreases r,
{
    match T::merge_spec(l.bal, r.bal, false) {
        Some(b) => match subs_merge::<T>(l.subs, r.subs) {
            Some(ss) => Some(AccTree { name: l.name, bal: b, subs: ss }),
            None => None,
        },
        None => None,
    }
}

/// The sub-accounts `ls` and `rs`, both in name order, merged in name
/// order: two of the same name merged into one; `None` where a sum
/// overflows.
pub open spec fn subs_merge<T: Arithmetic>(ls: Seq<AccTree<T::V>>, rs: Seq<AccTree<T::V>>) -> Option<
    Seq<AccTree<T::V>>,
>
    decreases rs, ls.len(),
{
    if rs.len() == 0 {
        Some(ls)
    } else if ls.len() == 0 {
        Some(rs)
    } else if ls[0].name == rs[0].name {
        match tree_merge::<T>(ls[0], rs[0]) {
            Some(m) => match subs_merge::<T>(ls.drop_first(), rs.drop_first()) {
                Some(t) => Some(seq![m] + t),
                None => None,
            },
            None => None,
        }
    } else if seq_lt(ls[0].name, rs[0].name) {
        match subs_merge::<T>(ls.drop_first(), rs) {
            Some(t) => Some(seq![ls[0]] + t),
            None => None,
        }
    } else {
        match subs_merge::<T>(ls, rs.drop_first()) {
            Some(t) => Some(seq![rs[0]] + t),
            None => None,
        }
    }
}

proof fn lemma_tree_merge<T: Arithmetic>(l: AccTree<T::V>, r: AccTree<T::V>)
    requires
        wf_tree(l),
        wf_tree(r),
    ensures
        tree_merge::<T>(l, r) matches Some(m) ==> wf_tree(m) && m.name == l.name,
    decreases r,
{
    lemma_subs_merge::<T>(l.subs, r.subs);
}

proof fn lemma_subs_merge<T: Arithmetic>(ls: Seq<AccTree<T::V>>, rs: Seq<AccTree<T::V>>)
    requires
        names_sorted(ls),
        names_sorted(rs),
        all_wf(ls),
        all_wf(rs),
    ensures
        subs_merge::<T>(ls, rs) matches Some(t) ==> {
            &&& names_sorted(t)
            &&& all_wf(t)
            &&& forall|k: int| #![trigger t[k]]
                0 <= k < t.len() ==> (exists|i: int| 0 <= i < ls.len() && t[k].name == ls[i].name) || (
                exists|j: int| 0 <= j < rs.len() && t[k].name == rs[j].name)
        },
    decreases rs, ls.len(),
{
    if rs.len() == 0 || ls.len() == 0 {
        return;
    }
    let l1 = ls.drop_first();
    let r1 = rs.drop_first();
    assert(names_sorted(l1) && all_wf(l1)) by {
        assert forall|i: int, j: int| 0 <= i < j < l1.len() implies seq_lt(#[trigger] l1[i].name, #[trigger] l1[j].name) by {
            assert(l1[i] == ls[i + 1] && l1[j] == ls[j + 1]);
        }
        assert forall|i: int| 0 <= i < l1.len() implies wf_tree(#[trigger] l1[i]) by {
            assert(l1[i] == ls[i + 1]);
        }
    }
    assert(names_sorted(r1) && all_wf(r1)) by {
        assert forall|i: int, j: int| 0 <= i < j < r1.len() implies seq_lt(#[trigger] r1[i].name, #[trigger] r1[j].name) by {
            assert(r1[i] == rs[i + 1] && r1[j] == rs[j + 1]);
        }
        assert forall|i: int| 0 <= i < r1.len() implies wf_tree(#[trigger] r1[i]) by {
            assert(r1[i] == rs[i + 1]);
        }
    }
    assert(wf_tree(ls[0]) && wf_tree(rs[0]));
    let n0 = if ls[0].name == rs[0].name || seq_lt(ls[0].name, rs[0].name) {
        ls[0].name
    } else {
        rs[0].name
    };
    if ls[0].name == rs[0].name {
        lemma_tree_merge::<T>(ls[0], rs[0]);
        lemma_subs_merge::<T>(l1, r1);
    } else if seq_lt(ls[0].name, rs[0].name) {
        lemma_subs_merge::<T>(l1, rs);
    } else {
        lemma_subs_merge::<T>(ls, r1);
    }
    match subs_merge::<T>(ls, rs) {
        Some(t) => {
            let x = t[0];
            let tail = t.drop_first();
            assert(t == seq![x] + tail);
            assert(x.name == n0);
            // every name of the tail comes after n0
            assert forall|k: int| 0 <= k < tail.len() implies seq_lt(n0, #[trigger] tail[k].name) by {
                if exists|i: int| 0 <= i < ls.len() && i > 0 && tail[k].name == ls[i].name {
                    let i = choose|i: int| 0 <= i < ls.len() && i > 0 && tail[k].name == ls[i].name;
                    assert(seq_lt(ls[0].name, ls[i].name));
                    crate::catalog::lemma_seq_lt(n0, ls[0].name, ls[i].name);
                    crate::catalog::lemma_seq_lt(ls[0].name, rs[0].name, ls[i].name);
                } else if exists|j: int| 0 <= j < rs.len() && j > 0 && tail[k].name == rs[j].name {
                    let j = choose|j: int| 0 <= j < rs.len() && j > 0 && tail[k].name == rs[j].name;
                    assert(seq_lt(rs[0].name, rs[j].name));
                    crate::catalog::lemma_seq_lt(n0, rs[0].name, rs[j].name);
                    crate::catalog::lemma_seq_lt(rs[0].name, ls[0].name, rs[j].name);
                } else {
                    if ls[0].name == rs[0].name {
                        assert(tail == subs_merge::<T>(l1, r1).unwrap());
                        if exists|i: int| 0 <= i < l1.len() && tail[k].name == l1[i].name {
                            let i = choose|i: int| 0 <= i < l1.len() && tail[k].name == l1[i].name;
                            assert(l1[i] == ls[i + 1]);
                        } else {
                            let j = choose|j: int| 0 <= j < r1.len() && tail[k].name == r1[j].name;
                            assert(r1[j] == rs[j + 1]);
                        }
                    } else if seq_lt(ls[0].name, rs[0].name) {
                        assert(tail == subs_merge::<T>(l1, rs).unwrap());
                        if exists|i: int| 0 <= i < l1.len() && tail[k].name == l1[i].name {
                            let i = choose|i: int| 0 <= i < l1.len() && tail[k].name == l1[i].name;
                            assert(l1[i] == ls[i + 1]);
                        } else {
                            let j = choose|j: int| 0 <= j < rs.len() && tail[k].name == rs[j].name;
                            assert(j == 0);
                        }
                    } else {
                        assert(tail == subs_merge::<T>(ls, r1).unwrap());
                        if exists|i: int| 0 <= i < ls.len() && tail[k].name == ls[i].name {
                            let i = choose|i: int| 0 <= i < ls.len() && tail[k].name == ls[i].name;
                            assert(i == 0);
                            crate::catalog::lemma_seq_lt(rs[0].name, ls[0].name, ls[0].name);
                        } else {
                            let j = choose|j: int| 0 <= j < r1.len() && tail[k].name == r1[j].name;
                            assert(r1[j] == rs[j + 1]);
                        }
                    }
                }
            }
            assert forall|i: int, j: int| 0 <= i < j < t.len() implies seq_lt(#[trigger] t[i].name, #[trigger] t[j].name) by {
                if i == 0 {
                    assert(t[j] == tail[j - 1]);
                } else {
                    assert(t[i] == tail[i - 1] && t[j] == tail[j - 1]);
                }
            }
            assert forall|k: int| 0 <= k < t.len() implies wf_tree(#[trigger] t[k]) by {
                if k > 0 {
                    assert(t[k] == tail[k - 1]);
                }
            }
            assert forall|k: int| #![trigger t[k]] 0 <= k < t.len() implies (exists|i: int|
                0 <= i < ls.len() && t[k].name == ls[i].name) || (exists|j: int|
                0 <= j < rs.len() && t[k].name == rs[j].name) by {
                if k == 0 {
                    if n0 == ls[0].name {
                        assert(t[k].name == ls[0].name);
                    } else {
                        assert(t[k].name == rs[0].name);
                    }
                } else {
                    let kk = k - 1;
                    assert(t[k] == tail[kk]);
                    if ls[0].name == rs[0].name {
                        if exists|i: int| 0 <= i < l1.len() && tail[kk].name == l1[i].name {
                            let i = choose|i: int| 0 <= i < l1.len() && tail[kk].name == l1[i].name;
                            assert(l1[i] == ls[i + 1]);
                        } else {
                            let j = choose|j: int| 0 <= j < r1.len() && tail[kk].name == r1[j].name;
                            assert(r1[j] == rs[j + 1]);
                        }
                    } else if seq_lt(ls[0].name, rs[0].name) {
                        if exists|i: int| 0 <= i < l1.len() && tail[kk].name == l1[i].name {
                            let i = choose|i: int| 0 <= i < l1.len() && tail[kk].name == l1[i].name;
                            assert(l1[i] == ls[i + 1]);
                        }
                    } else {
                        if exists|j: int| 0 <= j < r1.len() && tail[kk].name == r1[j].name {
                            let j = choose|j: int| 0 <= j < r1.len() && tail[kk].name == r1[j].name;
                            assert(r1[j] == rs[j + 1]);
                        }
                    }
                }
            }
        },
        None => {},
    }
}

/// `left` and `right` merged into one account named as `left` (see
/// `tree_merge`); `None` where a sum of balances overflows.
pub fn merge_hier_account_checked<T: Arithmetic>(left: HierAccountView<T>, right: HierAccountView<T>) -> (r:
    Option<HierAccountView<T>>)
    ensures
        r is Some <==> tree_merge::<T>(left@, right@) is Some,
        r matches Some(t) ==> Some(t@) == tree_merge::<T>(left@, right@),
    decreases tsize(right@), 0nat,
{
    proof {
        use_type_invariant(&left);
        use_type_invariant(&right);
        lemma_hviews(left.sub_account@);
        lemma_hviews(right.sub_account@);
    }
    let ghost lv = left@;
    let ghost rv = right@;
    let HierAccountView { name, balance: lb, sub_account: lsubs } = left;
    let HierAccountView { name: _, balance: rb, sub_account: rsubs } = right;
    assert(hviews(lsubs@) == lv.subs && hviews(rsubs@) == rv.subs);
    let b = match lb.merged(rb, false) {
        Some(b) => b,
        None => return None,
    };
    let subs = match merge_subs(lsubs, rsubs) {
        Some(s) => s,
        None => return None,
    };
    proof {
        lemma_tree_merge::<T>(lv, rv);
        assert(AccTree { name: name@, bal: b@, subs: hviews(subs@) } == tree_merge::<T>(lv, rv).unwrap());
    }
    Some(HierAccountView { name, balance: b, sub_account: subs })
}

/// `left` and `right` merged into one account named as `left`: the
/// balances added, sub-accounts of the same name merged, the others kept.
pub fn merge_hier_account<T: Arithmetic>(left: HierAccountView<T>, right: HierAccountView<T>) -> (r:
    HierAccountView<T>)
    requires
        tree_merge::<T>(left@, right@) is Some,
    ensures
        Some(r@) == tree_merge::<T>(left@, right@),
{
    merge_hier_account_checked(left, right).unwrap()
}

/// The sub-accounts `ls` and `rs`, both in name order, merged in name
/// order (see `subs_merge`).
fn merge_subs<T: Arithmetic>(ls: Vec<HierAccountView<T>>, rs: Vec<HierAccountView<T>>) -> (r: Option<
    Vec<HierAccountView<T>>,
>)
    requires
        names_sorted(hviews(ls@)),
        names_sorted(hviews(rs@)),
        all_wf(hviews(ls@)),
        all_wf(hviews(rs@)),
    ensures
        r is Some <==> subs_merge::<T>(hviews(ls@), hviews(rs@)) is Some,
        r matches Some(v) ==> Some(hviews(v@)) == subs_merge::<T>(hviews(ls@), hviews(rs@)),
    decreases ssize(hviews(rs@)), ls@.len(),
{
    proof {
        lemma_hviews(ls@);
        lemma_hviews(rs@);
    }
    let ghost lv = hviews(ls@);
    let ghost rv = hviews(rs@);
    if rs.len() == 0 {
        return Some(ls);
    }
    if ls.len() == 0 {
        return Some(rs);
    }
    let mut ls = ls;
    let mut rs = rs;
    let same = ls[0].name.same(&rs[0].name);
    let before = ls[0].name.lt(&rs[0].name);
    assert(lv[0].name == ls@[0].name@ && rv[0].name == rs@[0].name@);
    if same {
        let l0 = ls.remove(0);
        let r0 = rs.remove(0);
        proof {
            lemma_hviews(ls@);
            lemma_hviews(rs@);
            assert(hviews(ls@) =~= lv.drop_first());
            assert(hviews(rs@) =~= rv.drop_first());
            assert(lv.drop_first() =~= lv.subrange(1, lv.len() as int));
            lemma_tail_sorted(lv);
            lemma_tail_sorted(rv);
            assert(ssize(rv) == tsize(rv[0]) + ssize(rv.drop_first()));
        }
        let m = match merge_hier_account_checked(l0, r0) {
            Some(m) => m,
            None => return None,
        };
        let mut t = match merge_subs(ls, rs) {
            Some(t) => t,
            None => return None,
        };
        proof {
            lemma_hviews(t@);
        }
        let ghost tv = hviews(t@);
        t.insert(0, m);
        proof {
            lemma_hviews(t@);
            assert(hviews(t@) =~= seq![m@] + tv);
        }
        Some(t)
    } else if before {
        let l0 = ls.remove(0);
        proof {
            lemma_hviews(ls@);
            assert(hviews(ls@) =~= lv.drop_first());
            lemma_tail_sorted(lv);
        }
        let mut t = match merge_subs(ls, rs) {
            Some(t) => t,
            None => return None,
        };
        proof {
            lemma_hviews(t@);
        }
        let ghost tv = hviews(t@);
        t.insert(0, l0);
        proof {
            lemma_hviews(t@);
            assert(hviews(t@) =~= seq![lv[0]] + tv);
        }
        Some(t)
    } else {
        let r0 = rs.remove(0);
        proof {
            lemma_hviews(rs@);
            assert(hviews(rs@) =~= rv.drop_first());
            lemma_tail_sorted(rv);
            assert(ssize(rv) == tsize(rv[0]) + ssize(rv.drop_first()));
        }
        let mut t = match merge_subs(ls, rs) {
            Some(t) => t,
            None => return None,
        };
        proof {
            lemma_hviews(t@);
        }
        let ghost tv = hviews(t@);
        t.insert(0, r0);
        proof {
            lemma_hviews(t@);
            assert(hviews(t@) =~= seq![rv[0]] + tv);
        }
        Some(t)
    }
}

/// Dropping the first tree keeps the order and the well-formedness.
proof fn lemma_tail_sorted<B>(s: Seq<AccTree<B>>)
    requires
        names_sorted(s),
        all_wf(s),
        s.len() > 0,
    ensures
        names_sorted(s.drop_first()),
        all_wf(s.drop_first()),
{
    let t = s.drop_first();
    assert forall|i: int, j: int| 0 <= i < j < t.len() implies seq_lt(#[trigger] t[i].name, #[trigger] t[j].name) by {
        assert(t[i] == s[i + 1] && t[j] == s[j + 1]);
    }
    assert forall|i: int| 0 <= i < t.len() implies wf_tree(#[trigger] t[i]) by {
        assert(t[i] == s[i + 1]);
    }
}

/// The balances of the accounts `s` added up, from the empty value;
/// `None` where a sum overflows.
pub open spec fn bal_sum<T: Arithmetic>(s: Seq<AccTree<T::V>>) -> Option<T::V>
    decreases s.len(),
{
    if s.len() == 0 {
        Some(T::empty_spec())
    } else {
        match bal_sum::<T>(s.drop_last()) {
            Some(a) => T::merge_spec(a, s.last().bal, false),
            None => None,
        }
    }
}

/// A flat account: a name and a balance, no sub-accounts.
pub open spec fn leaf<B>(name: Seq<char>, b: B) -> AccTree<B> {
    AccTree { name, bal: b, subs: Seq::empty() }
}

/// The flat accounts of `t`, whose full name is `name`: an account
/// without sub-accounts is one flat account with its balance; one with
/// sub-accounts is a flat account with what its balance has over theirs
/// (none where that is zero), then the flat accounts of each sub-account
/// in order, named by the full name, `:` and its name. `None` where a
/// sum or a difference overflows.
pub open spec fn flat_of<T: Arithmetic>(t: AccTree<T::V>, name: Seq<char>) -> Option<Seq<AccTree<T::V>>>
    decreases t, 0nat,
{
    let own: Option<Seq<AccTree<T::V>>> = if t.subs.len() == 0 {
        Some(seq![leaf(name, t.bal)])
    } else {
        match bal_sum::<T>(t.subs) {
            Some(s) => match T::merge_spec(t.bal, s, true) {
                Some(d) => if T::zero_spec(d) {
                    Some(Seq::empty())
                } else {
                    Some(seq![leaf(name, d)])
                },
                None => None,
            },
            None => None,
        }
    };
    match own {
        Some(o) => match flat_subs::<T>(t.subs, name) {
            Some(rest) => Some(o + rest),
            None => None,
        },
        None => None,
    }
}

/// The flat accounts of the sub-accounts `s` of the account with full
/// name `pname`, one after the other.
pub open spec fn flat_subs<T: Arithmetic>(s: Seq<AccTree<T::V>>, pname: Seq<char>) -> Option<
    Seq<AccTree<T::V>>,
>
    decreases s, s.len(),
{
    if s.len() == 0 {
        Some(Seq::empty())
    } else {
        match flat_subs::<T>(s.drop_last(), pname) {
            Some(a) => match flat_of::<T>(s.last(), append_spec(pname, s.last().name)) {
                Some(b) => Some(a + b),
                None => None,
            },
            None => None,
        }
    }
}

proof fn lemma_ssize_elem<B>(s: Seq<AccTree<B>>, i: int)
    requires
        0 <= i < s.len(),
    ensures
        tsize(s[i]) <= ssize(s),
    decreases s.len(),
{
    if i > 0 {
        lemma_ssize_elem(s.drop_first(), i - 1);
    }
}

/// The balances of `subs` added up (see `bal_sum`).
fn sum_balances<T: Arithmetic>(subs: &Vec<HierAccountView<T>>) -> (r: Option<T>)
    ensures
        r is Some <==> bal_sum::<T>(hviews(subs@)) is Some,
        r matches Some(x) ==> Some(x@) == bal_sum::<T>(hviews(subs@)),
{
    proof {
        lemma_hviews(subs@);
    }
    let ghost sv = hviews(subs@);
    let mut acc = T::empty();
    let mut i: usize = 0;
    assert(sv.take(0) =~= Seq::<AccTree<T::V>>::empty());
    while i < subs.len()
        invariant
            i <= subs@.len(),
            sv == hviews(subs@),
            sv.len() == subs@.len(),
            forall|k: int| 0 <= k < sv.len() ==> #[trigger] sv[k] == hview(subs@[k]),
            bal_sum::<T>(sv.take(i as int)) == Some(acc@),
        decreases subs@.len() - i,
    {
        assert(sv.take(i + 1).drop_last() =~= sv.take(i as int));
        assert(sv.take(i + 1).last() == sv[i as int]);
        let b = subs[i].balance.copy_of();
        acc = match acc.merged(b, false) {
            Some(a) => a,
            None => {
                proof {
                    lemma_bal_sum_stops::<T>(sv, i + 1);
                }
                return None;
            },
        };
        i = i + 1;
    }
    assert(sv.take(sv.len() as int) =~= sv);
    Some(acc)
}

proof fn lemma_bal_sum_stops<T: Arithmetic>(s: Seq<AccTree<T::V>>, n: int)
    requires
        0 <= n <= s.len(),
        bal_sum::<T>(s.take(n)) is None,
    ensures
        bal_sum::<T>(s) is None,
    decreases s.len(),
{
    if n < s.len() {
        let init = s.drop_last();
        assert(init.take(n) =~= s.take(n));
        lemma_bal_sum_stops::<T>(init, n);
    } else {
        assert(s.take(n) =~= s);
    }
}

/// Flat accounts by value.
pub open spec fn fviews<T: Arithmetic>(v: Seq<FlatAccountView<T>>) -> Seq<AccTree<T::V>> {
    v.map_values(|f: FlatAccountView<T>| f@)
}

/// The flat accounts of `t` with full name `name` (see `flat_of`).
fn flatten_named<T: Arithmetic>(t: HierAccountView<T>, name: AccName) -> (r: Option<Vec<FlatAccountView<T>>>)
    ensures
        r is Some <==> flat_of::<T>(t@, name@) is Some,
        r matches Some(v) ==> Some(fviews(v@)) == flat_of::<T>(t@, name@),
    decreases tsize(t@), 0nat,
{
    proof {
        use_type_invariant(&t);
        lemma_hviews(t.sub_account@);
    }
    let ghost tv = t@;
    let s = if t.sub_account.len() == 0 {
        None
    } else {
        match sum_balances(&t.sub_account) {
            Some(s) => Some(s),
            None => return None,
        }
    };
    let HierAccountView { name: _, balance, sub_account } = t;
    assert(hviews(sub_account@) == tv.subs);
    let mut res: Vec<FlatAccountView<T>> = Vec::new();
    let ghost own: Seq<AccTree<T::V>>;
    match s {
        None => {
            let ghost b = balance@;
            res.push(FlatAccountView { acc_name: name.duplicate(), balance });
            proof {
                own = seq![leaf(name@, b)];
                assert(fviews(res@) =~= own);
            }
        },
        Some(s) => {
            let d = match balance.merged(s, true) {
                Some(d) => d,
                None => return None,
            };
            if !d.test_zero() {
                let ghost dv = d@;
                res.push(FlatAccountView { acc_name: name.duplicate(), balance: d });
                proof {
                    own = seq![leaf(name@, dv)];
                    assert(fviews(res@) =~= own);
                }
            } else {
                proof {
                    own = Seq::empty();
                    assert(fviews(res@) =~= own);
                }
            }
        },
    }
    let mut rest = match flatten_subs(sub_account, &name) {
        Some(r) => r,
        None => return None,
    };
    let ghost rv = fviews(rest@);
    res.append(&mut rest);
    assert(fviews(res@) =~= own + rv);
    Some(res)
}

/// The flat accounts of the sub-accounts `subs` of the account named
/// `pname`, one after the other (see `flat_subs`).
fn flatten_subs<T: Arithmetic>(subs: Vec<HierAccountView<T>>, pname: &AccName) -> (r: Option<
    Vec<FlatAccountView<T>>,
>)
    ensures
        r is Some <==> flat_subs::<T>(hviews(subs@), pname@) is Some,
        r matches Some(v) ==> Some(fviews(v@)) == flat_subs::<T>(hviews(subs@), pname@),
    decreases ssize(hviews(subs@)), subs@.len(),
{
    proof {
        lemma_hviews(subs@);
    }
    let ghost sv = hviews(subs@);
    let n: usize = subs.len();
    let ghost orig = subs@;
    let mut rest = subs;
    let mut res: Vec<FlatAccountView<T>> = Vec::new();
    let mut k: usize = 0;
    assert(sv.take(0) =~= Seq::<AccTree<T::V>>::empty());
    assert(fviews(res@) =~= Seq::<AccTree<T::V>>::empty());
    while rest.len() > 0
        invariant
            k + rest@.len() == n,
            n == sv.len(),
            n == orig.len(),
            orig == subs@,
            sv == hviews(orig),
            forall|j: int| 0 <= j < sv.len() ==> #[trigger] sv[j] == hview(orig[j]),
            rest@ == orig.subrange(k as int, n as int),
            flat_subs::<T>(sv.take(k as int), pname@) == Some(fviews(res@)),
        decreases rest@.len(),
    {
        let ghost b = rest@;
        let c = rest.remove(0);
        assert(b[0] == orig[k as int]);
        assert(c == orig[k as int]);
        assert(rest@ =~= orig.subrange(k + 1, n as int));
        assert(sv.take(k + 1).drop_last() =~= sv.take(k as int));
        assert(sv.take(k + 1).last() == sv[k as int]);
        proof {
            lemma_ssize_elem(sv, k as int);
        }
        let cname = pname.append(&c.name);
        assert(c.name@ == sv[k as int].name);
        let mut more = match flatten_named(c, cname) {
            Some(m) => m,
            None => {
                proof {
                    assert(flat_subs::<T>(sv.take(k + 1), pname@) is None);
                    lemma_flat_subs_stops::<T>(sv, pname@, k + 1);
                }
                return None;
            },
        };
        let ghost before = fviews(res@);
        let ghost mv = fviews(more@);
        res.append(&mut more);
        assert(fviews(res@) =~= before + mv);
        k = k + 1;
    }
    assert(sv.take(n as int) =~= sv);
    Some(res)
}

proof fn lemma_flat_subs_stops<T: Arithmetic>(s: Seq<AccTree<T::V>>, pname: Seq<char>, n: int)
    requires
        0 <= n <= s.len(),
        flat_subs::<T>(s.take(n), pname) is None,
    ensures
        flat_subs::<T>(s, pname) is None,
    decreases s.len(),
{
    if n < s.len() {
        let init = s.drop_last();
        assert(init.take(n) =~= s.take(n));
        lemma_flat_subs_stops::<T>(init, pname, n);
    } else {
        assert(s.take(n) =~= s);
    }
}

/// The flat accounts of `acc` (see `flat_of`), named by their full names:
/// for each account with sub-accounts, what its balance has over theirs
/// (where that is not zero); for each account without, its balance.
/// `None` where a sum or a difference overflows.
pub fn flatten_account_checked<T: Arithmetic>(acc: HierAccountView<T>) -> (r: Option<Vec<FlatAccountView<T>>>)
    ensures
        r is Some <==> flat_of::<T>(acc@, acc@.name) is Some,
        r matches Some(v) ==> Some(fviews(v@)) == flat_of::<T>(acc@, acc@.name),
{
    let name = acc.name.duplicate();
    flatten_named(acc, name)
}

/// The flat accounts of `acc` (see `flat_of`), named by their full names.
pub fn flatten_account<T: Arithmetic>(acc: HierAccountView<T>) -> (r: Vec<FlatAccountView<T>>)
    requires
        flat_of::<T>(acc@, acc@.name) is Some,
    ensures
        Some(fviews(r@)) == flat_of::<T>(acc@, acc@.name),
{
    flatten_account_checked(acc).unwrap()
}

/// `t` cut below depth `k`: the accounts `k` levels down keep their
/// balances and lose their sub-accounts.
pub open spec fn limit_tree<B>(t: AccTree<B>, k: nat) -> AccTree<B>
    decreases t, 0nat,
{
    if k <= 1 {
        AccTree { name: t.name, bal: t.bal, subs: Seq::empty() }
    } else {
        AccTree { name: t.name, bal: t.bal, subs: limit_subs(t.subs, (k - 1) as nat) }
    }
}

/// Each of the trees `s` cut below depth `k`.
pub open spec fn limit_subs<B>(s: Seq<AccTree<B>>, k: nat) -> Seq<AccTree<B>>
    decreases s, s.len(),
{
    if s.len() == 0 {
        Seq::empty()
    } else {
        limit_subs(s.drop_last(), k).push(limit_tree(s.last(), k))
    }
}

proof fn lemma_limit_subs<B>(s: Seq<AccTree<B>>, k: nat)
    ensures
        limit_subs(s, k).len() == s.len(),
        forall|i: int| 0 <= i < s.len() ==> #[trigger] limit_subs(s, k)[i] == limit_tree(s[i], k),
    decreases s.len(),
{
    if s.len() > 0 {
        lemma_limit_subs(s.drop_last(), k);
    }
}

/// Whether an account is kept by `prune_tree`: its balance is not zero,
/// or it has sub-accounts.
pub open spec fn kept<T: Arithmetic>(t: AccTree<T::V>) -> bool {
    !T::zero_spec(t.bal) || t.subs.len() > 0
}

/// `t` without its empty sub-accounts, all the way down: a sub-account
/// with a zero balance and no sub-accounts of its own goes (one whose
/// sub-accounts all go stays).
pub open spec fn prune_tree<T: Arithmetic>(t: AccTree<T::V>) -> AccTree<T::V>
    decreases t, 0nat,
{
    AccTree { name: t.name, bal: t.bal, subs: prune_subs::<T>(t.subs) }
}

/// The kept trees of `s`, each pruned.
pub open spec fn prune_subs<T: Arithmetic>(s: Seq<AccTree<T::V>>) -> Seq<AccTree<T::V>>
    decreases s, s.len(),
{
    if s.len() == 0 {
        Seq::empty()
    } else {
        let p = prune_subs::<T>(s.drop_last());
        if kept::<T>(s.last()) {
            p.push(prune_tree::<T>(s.last()))
        } else {
            p
        }
    }
}

/// `t` without its sub-accounts whose balance is zero, all the way down.
pub open spec fn drop_zero_tree<T: Arithmetic>(t: AccTree<T::V>) -> AccTree<T::V>
    decreases t, 0nat,
{
    AccTree { name: t.name, bal: t.bal, subs: drop_zero_subs::<T>(t.subs) }
}

/// The trees of `s` whose balance is not zero, each without its
/// sub-accounts whose balance is zero.
pub open spec fn drop_zero_subs<T: Arithmetic>(s: Seq<AccTree<T::V>>) -> Seq<AccTree<T::V>>
    decreases s, s.len(),
{
    if s.len() == 0 {
        Seq::empty()
    } else {
        let p = drop_zero_subs::<T>(s.drop_last());
        if !T::zero_spec(s.last().bal) {
            p.push(drop_zero_tree::<T>(s.last()))
        } else {
            p
        }
    }
}


impl<T: Arithmetic> HierAccountView<T> {
    /// The account `name` with an empty balance and no sub-accounts.
    pub fn new(name: AccName) -> (r: Self)
        ensures
            r@ == leaf(name@, T::empty_spec()),
    {
        let r = HierAccountView { name, balance: T::empty(), sub_account: Vec::new() };
        assert(hviews(r.sub_account@) =~= Seq::<AccTree<T::V>>::empty());
        r
    }

    /// The account `name` with `balance` and the sub-accounts `subs`,
    /// which must come in strict name order; `None` where they do not.
    pub fn from_parts(name: AccName, balance: T, subs: Vec<HierAccountView<T>>) -> (r: Option<Self>)
        ensures
            r is Some <==> names_sorted(hviews(subs@)),
            r matches Some(t) ==> t@ == (AccTree { name: name@, bal: balance@, subs: hviews(subs@) }),
    {
        proof {
            lemma_hviews(subs@);
        }
        let ghost sv = hviews(subs@);
        let mut i: usize = 0;
        while i < subs.len()
            invariant
                i <= subs@.len(),
                sv == hviews(subs@),
                sv.len() == subs@.len(),
                forall|k: int| 0 <= k < sv.len() ==> #[trigger] sv[k] == hview(subs@[k]),
                forall|a: int, b: int| 0 <= a < b < i ==> seq_lt(#[trigger] sv[a].name, #[trigger] sv[b].name),
                forall|k: int| 0 <= k < i ==> wf_tree(#[trigger] sv[k]),
            decreases subs@.len() - i,
        {
            let c = &subs[i];
            proof {
                use_type_invariant(c);
            }
            if i > 0 && !subs[i - 1].name.lt(&c.name) {
                proof {
                    assert(sv[i - 1].name == subs@[i - 1].name@);
                    assert(sv[i as int].name == c.name@);
                }
                return None;
            }
            proof {
                assert forall|a: int, b: int| 0 <= a < b < i + 1 implies seq_lt(#[trigger] sv[a].name, #[trigger] sv[b].name) by {
                    if b == i && a < i - 1 {
                        crate::catalog::lemma_seq_lt(sv[a].name, sv[i - 1].name, sv[b].name);
                    }
                }
            }
            i = i + 1;
        }
        Some(HierAccountView { name, balance, sub_account: subs })
    }

    /// The sub-accounts, in name order.
    pub fn sub_accounts(&self) -> (r: &Vec<HierAccountView<T>>)
        ensures
            hviews(r@) == self@.subs,
            r@.len() == self@.subs.len(),
            names_sorted(self@.subs),
            all_wf(self@.subs),
    {
        proof {
            use_type_invariant(self);
            lemma_hviews(self.sub_account@);
        }
        &self.sub_account
    }

    /// The sub-accounts, in name order.
    pub fn into_sub_accounts(self) -> (r: Vec<HierAccountView<T>>)
        ensures
            hviews(r@) == self@.subs,
            names_sorted(self@.subs),
            all_wf(self@.subs),
    {
        proof {
            use_type_invariant(&self);
        }
        let HierAccountView { name: _, balance: _, sub_account } = self;
        sub_account
    }
}

/// `t` cut below depth `deep` (see `limit_tree`).
fn limit_depth<T: Arithmetic>(t: HierAccountView<T>, deep: usize) -> (r: HierAccountView<T>)
    requires
        deep >= 1,
    ensures
        r@ == limit_tree(t@, deep as nat),
    decreases tsize(t@),
{
    proof {
        use_type_invariant(&t);
        lemma_hviews(t.sub_account@);
    }
    let ghost tv = t@;
    let HierAccountView { name, balance, sub_account } = t;
    if deep == 1 {
        let subs: Vec<HierAccountView<T>> = Vec::new();
        assert(hviews(subs@) =~= Seq::<AccTree<T::V>>::empty());
        return HierAccountView { name, balance, sub_account: subs };
    }
    let ghost orig = sub_account@;
    let ghost sv = hviews(orig);
    let n: usize = sub_account.len();
    let mut rest = sub_account;
    let mut out: Vec<HierAccountView<T>> = Vec::new();
    let mut k: usize = 0;
    while rest.len() > 0
        invariant
            k + rest@.len() == n,
            n == orig.len(),
            sv.len() == n,
            tv == t@,
            sv == hviews(orig),
            sv == tv.subs,
            tsize(tv) == 1 + ssize(sv),
            names_sorted(sv),
            all_wf(sv),
            forall|j: int| 0 <= j < sv.len() ==> #[trigger] sv[j] == hview(orig[j]),
            rest@ == orig.subrange(k as int, n as int),
            out@.len() == k,
            forall|j: int| 0 <= j < k ==> #[trigger] hview(out@[j]) == limit_tree(sv[j], (deep - 1) as nat),
            deep >= 2,
        decreases rest@.len(),
    {
        let ghost b = rest@;
        let c = rest.remove(0);
        assert(b[0] == orig[k as int]);
        assert(rest@ =~= orig.subrange(k + 1, n as int));
        proof {
            lemma_ssize_elem(sv, k as int);
        }
        let lc = limit_depth(c, deep - 1);
        out.push(lc);
        k = k + 1;
    }
    proof {
        lemma_hviews(out@);
        lemma_limit_subs(sv, (deep - 1) as nat);
        assert(hviews(out@) =~= limit_subs(sv, (deep - 1) as nat));
        lemma_limit_wf(tv, deep as nat);
    }
    HierAccountView { name, balance, sub_account: out }
}

proof fn lemma_limit_wf<B>(t: AccTree<B>, k: nat)
    requires
        wf_tree(t),
    ensures
        wf_tree(limit_tree(t, k)),
    decreases t,
{
    if k > 1 {
        let ls = limit_subs(t.subs, (k - 1) as nat);
        lemma_limit_subs(t.subs, (k - 1) as nat);
        assert forall|i: int| 0 <= i < ls.len() implies wf_tree(#[trigger] ls[i]) by {
            lemma_limit_wf(t.subs[i], (k - 1) as nat);
        }
        assert forall|i: int, j: int| 0 <= i < j < ls.len() implies seq_lt(#[trigger] ls[i].name, #[trigger] ls[j].name) by {
            assert(seq_lt(t.subs[i].name, t.subs[j].name));
        }
    }
}

/// Keeps the accounts of `acc` down to depth `deep` (`1` keeps `acc`
/// alone), each with its balance; those below go.
pub fn limit_accounts_depth<T: Arithmetic>(acc: &mut HierAccountView<T>, deep: usize)
    requires
        deep >= 1,
    ensures
        final(acc)@ == limit_tree(old(acc)@, deep as nat),
{
    let mut t = HierAccountView::new(AccName::new(""));
    std::mem::swap(acc, &mut t);
    *acc = limit_depth(t, deep);
}

proof fn lemma_prune_subs<T: Arithmetic>(s: Seq<AccTree<T::V>>)
    ensures
        forall|j: int| 0 <= j < prune_subs::<T>(s).len() ==> exists|m: int|
            0 <= m < s.len() && #[trigger] prune_subs::<T>(s)[j] == prune_tree::<T>(s[m]),
        prune_subs::<T>(s).len() <= s.len(),
    decreases s.len(),
{
    if s.len() > 0 {
        let init = s.drop_last();
        lemma_prune_subs::<T>(init);
        let p = prune_subs::<T>(init);
        let q = prune_subs::<T>(s);
        assert forall|j: int| 0 <= j < q.len() implies exists|m: int|
            0 <= m < s.len() && #[trigger] q[j] == prune_tree::<T>(s[m]) by {
            if j < p.len() {
                let m = choose|m: int| 0 <= m < init.len() && p[j] == prune_tree::<T>(init[m]);
                assert(init[m] == s[m]);
                assert(q[j] == p[j]);
            } else {
                assert(q[j] == prune_tree::<T>(s[s.len() - 1]));
            }
        }
    }
}

proof fn lemma_drop_zero_subs<T: Arithmetic>(s: Seq<AccTree<T::V>>)
    ensures
        forall|j: int| 0 <= j < drop_zero_subs::<T>(s).len() ==> exists|m: int|
            0 <= m < s.len() && #[trigger] drop_zero_subs::<T>(s)[j] == drop_zero_tree::<T>(s[m]),
    decreases s.len(),
{
    if s.len() > 0 {
        let init = s.drop_last();
        lemma_drop_zero_subs::<T>(init);
        let p = drop_zero_subs::<T>(init);
        let q = drop_zero_subs::<T>(s);
        assert forall|j: int| 0 <= j < q.len() implies exists|m: int|
            0 <= m < s.len() && #[trigger] q[j] == drop_zero_tree::<T>(s[m]) by {
            if j < p.len() {
                let m = choose|m: int| 0 <= m < init.len() && p[j] == drop_zero_tree::<T>(init[m]);
                assert(init[m] == s[m]);
                assert(q[j] == p[j]);
            } else {
                assert(q[j] == drop_zero_tree::<T>(s[s.len() - 1]));
            }
        }
    }
}

/// `t` without its empty sub-accounts (see `prune_tree`).
fn prune<T: Arithmetic>(t: HierAccountView<T>, zeros: bool) -> (r: HierAccountView<T>)
    ensures
        !zeros ==> r@ == prune_tree::<T>(t@),
        zeros ==> r@ == drop_zero_tree::<T>(t@),
    decreases tsize(t@),
{
    proof {
        use_type_invariant(&t);
        lemma_hviews(t.sub_account@);
    }
    let ghost tv = t@;
    let HierAccountView { name, balance, sub_account } = t;
    let ghost orig = sub_account@;
    let ghost sv = hviews(orig);
    let n: usize = sub_account.len();
    let mut rest = sub_account;
    let mut out: Vec<HierAccountView<T>> = Vec::new();
    let mut k: usize = 0;
    assert(sv.take(0) =~= Seq::<AccTree<T::V>>::empty());
    proof {
        lemma_hviews(out@);
    }
    while rest.len() > 0
        invariant
            k + rest@.len() == n,
            n == orig.len(),
            sv.len() == n,
            tv == t@,
            sv == hviews(orig),
            sv == tv.subs,
            tsize(tv) == 1 + ssize(sv),
            names_sorted(sv),
            all_wf(sv),
            forall|j: int| 0 <= j < sv.len() ==> #[trigger] sv[j] == hview(orig[j]),
            rest@ == orig.subrange(k as int, n as int),
            !zeros ==> hviews(out@) == prune_subs::<T>(sv.take(k as int)),
            zeros ==> hviews(out@) == drop_zero_subs::<T>(sv.take(k as int)),
            names_sorted(hviews(out@)),
            all_wf(hviews(out@)),
            forall|j: int| 0 <= j < out@.len() ==> exists|m: int|
                0 <= m < k && (#[trigger] hviews(out@)[j]).name == sv[m].name,
        decreases rest@.len(),
    {
        let ghost b = rest@;
        let c = rest.remove(0);
        assert(b[0] == orig[k as int]);
        assert(rest@ =~= orig.subrange(k + 1, n as int));
        assert(sv.take(k + 1).drop_last() =~= sv.take(k as int));
        assert(sv.take(k + 1).last() == sv[k as int]);
        proof {
            lemma_ssize_elem(sv, k as int);
            lemma_hviews(c.sub_account@);
        }
        let keep = if zeros {
            !c.balance.test_zero()
        } else {
            !c.balance.test_zero() || c.sub_account.len() > 0
        };
        let ghost before = hviews(out@);
        proof {
            lemma_hviews(out@);
        }
        if keep {
            let pc = prune(c, zeros);
            proof {
                use_type_invariant(&pc);
            }
            out.push(pc);
            proof {
                lemma_hviews(out@);
                assert(hviews(out@) =~= before.push(pc@));
                let o = hviews(out@);
                assert(pc@.name == sv[k as int].name);
                assert forall|i: int, j: int| 0 <= i < j < o.len() implies seq_lt(#[trigger] o[i].name, #[trigger] o[j].name) by {
                    if j == o.len() - 1 {
                        let m = choose|m: int| 0 <= m < k && before[i].name == sv[m].name;
                        assert(seq_lt(sv[m].name, sv[k as int].name));
                    } else {
                        assert(o[i] == before[i] && o[j] == before[j]);
                    }
                }
                assert forall|j: int| 0 <= j < o.len() implies wf_tree(#[trigger] o[j]) by {
                    if j < o.len() - 1 {
                        assert(o[j] == before[j]);
                    }
                }
                assert forall|j: int| 0 <= j < o.len() implies exists|m: int|
                    0 <= m < k + 1 && (#[trigger] o[j]).name == sv[m].name by {
                    if j < o.len() - 1 {
                        assert(o[j] == before[j]);
                        let m = choose|m: int| 0 <= m < k && before[j].name == sv[m].name;
                    } else {
                        assert(o[j].name == sv[k as int].name);
                    }
                }
            }
        } else {
            proof {
                assert forall|j: int| 0 <= j < out@.len() implies exists|m: int|
                    0 <= m < k + 1 && (#[trigger] hviews(out@)[j]).name == sv[m].name by {
                    let m = choose|m: int| 0 <= m < k && hviews(out@)[j].name == sv[m].name;
                }
            }
        }
        k = k + 1;
    }
    assert(sv.take(n as int) =~= sv);
    HierAccountView { name, balance, sub_account: out }
}

impl<T: Arithmetic> HierAccountView<T> {
    /// Removes the empty sub-accounts, all the way down: those with a zero
    /// balance and no sub-accounts (see `prune_tree`).
    pub fn remove_empty_accounts(&mut self)
        ensures
            final(self)@ == prune_tree::<T>(old(self)@),
    {
        let mut t = HierAccountView::new(AccName::new(""));
        std::mem::swap(self, &mut t);
        *self = prune(t, false);
    }

    /// Removes the sub-accounts whose balance is zero, all the way down
    /// (see `drop_zero_tree`).
    pub fn remove_zero_sub_accounts(&mut self)
        ensures
            final(self)@ == drop_zero_tree::<T>(old(self)@),
    {
        let mut t = HierAccountView::new(AccName::new(""));
        std::mem::swap(self, &mut t);
        *self = prune(t, true);
    }

    /// Whether the balance of the account is zero.
    pub fn is_zero(&self) -> (r: bool)
        ensures
            r == T::zero_spec(self@.bal),
    {
        self.balance.test_zero()
    }
}

/// `s` with `t` put in its name order, in place of a tree of the same
/// name.
pub open spec fn ins_named<B>(s: Seq<AccTree<B>>, t: AccTree<B>) -> Seq<AccTree<B>>
    decreases s.len(),
{
    if s.len() == 0 {
        seq![t]
    } else if s[0].name == t.name {
        seq![t] + s.drop_first()
    } else if seq_lt(t.name, s[0].name) {
        seq![t] + s
    } else {
        seq![s[0]] + ins_named(s.drop_first(), t)
    }
}

/// The trees of `s` put one after the other in name order, a later tree
/// in place of an earlier one of the same name.
pub open spec fn by_name<B>(s: Seq<AccTree<B>>) -> Seq<AccTree<B>>
    decreases s.len(),
{
    if s.len() == 0 {
        Seq::empty()
    } else {
        ins_named(by_name(s.drop_last()), s.last())
    }
}

/// Putting `t` in place in sorted `s`: at the first position whose name is
/// not before that of `t`, replacing the tree there when it has the same
/// name.
proof fn lemma_ins_named<B>(s: Seq<AccTree<B>>, t: AccTree<B>, i: int)
    requires
        names_sorted(s),
        0 <= i <= s.len(),
        forall|j: int| 0 <= j < i ==> seq_lt(#[trigger] s[j].name, t.name),
        i < s.len() ==> !seq_lt(s[i].name, t.name),
    ensures
        ins_named(s, t) == (if i < s.len() && s[i].name == t.name {
            s.update(i, t)
        } else {
            s.insert(i, t)
        }),
    decreases s.len(),
{
    if s.len() == 0 {
        assert(s.insert(i, t) =~= seq![t]);
    } else if i == 0 {
        crate::catalog::lemma_seq_lt(s[0].name, t.name, t.name);
        if s[0].name == t.name {
            assert(seq![t] + s.drop_first() =~= s.update(0, t));
        } else {
            assert(seq![t] + s =~= s.insert(0, t));
        }
    } else {
        let r = s.drop_first();
        assert(seq_lt(s[0].name, t.name));
        crate::catalog::lemma_seq_lt(s[0].name, t.name, t.name);
        assert(names_sorted(r)) by {
            assert forall|a: int, b: int| 0 <= a < b < r.len() implies seq_lt(#[trigger] r[a].name, #[trigger] r[b].name) by {
                assert(r[a] == s[a + 1] && r[b] == s[b + 1]);
            }
        }
        assert forall|j: int| 0 <= j < i - 1 implies seq_lt(#[trigger] r[j].name, t.name) by {
            assert(r[j] == s[j + 1]);
        }
        lemma_ins_named(r, t, i - 1);
        if i < s.len() && s[i].name == t.name {
            assert(seq![s[0]] + r.update(i - 1, t) =~= s.update(i, t));
        } else {
            assert(seq![s[0]] + r.insert(i - 1, t) =~= s.insert(i, t));
        }
    }
}

/// Putting a well formed tree in place keeps the trees in strict name order
/// and well formed.
proof fn lemma_ins_named_sorted<B>(s: Seq<AccTree<B>>, t: AccTree<B>)
    requires
        names_sorted(s),
        all_wf(s),
        wf_tree(t),
    ensures
        names_sorted(ins_named(s, t)),
        all_wf(ins_named(s, t)),
        forall|k: int| #![trigger ins_named(s, t)[k]]
            0 <= k < ins_named(s, t).len() ==> ins_named(s, t)[k] == t || exists|j: int|
                0 <= j < s.len() && ins_named(s, t)[k] == s[j],
    decreases s.len(),
{
    let r = ins_named(s, t);
    if s.len() == 0 {
    } else if s[0].name == t.name {
        assert forall|a: int, b: int| 0 <= a < b < r.len() implies seq_lt(#[trigger] r[a].name, #[trigger] r[b].name) by {
            if a > 0 {
                assert(r[a] == s[a] && r[b] == s[b]);
            } else {
                assert(r[b] == s[b]);
            }
        }
        assert forall|k: int| 0 <= k < r.len() implies wf_tree(#[trigger] r[k]) by {
            if k > 0 {
                assert(r[k] == s[k]);
            }
        }
        assert forall|k: int| #![trigger r[k]] 0 <= k < r.len() implies r[k] == t || exists|j: int|
            0 <= j < s.len() && r[k] == s[j] by {
            if k > 0 {
                assert(r[k] == s[k]);
            }
        }
    } else if seq_lt(t.name, s[0].name) {
        assert forall|a: int, b: int| 0 <= a < b < r.len() implies seq_lt(#[trigger] r[a].name, #[trigger] r[b].name) by {
            if a > 0 {
                assert(r[a] == s[a - 1] && r[b] == s[b - 1]);
            } else {
                assert(r[b] == s[b - 1]);
                if b > 1 {
                    crate::catalog::lemma_seq_lt(t.name, s[0].name, s[b - 1].name);
                }
            }
        }
        assert forall|k: int| 0 <= k < r.len() implies wf_tree(#[trigger] r[k]) by {
            if k > 0 {
                assert(r[k] == s[k - 1]);
            }
        }
        assert forall|k: int| #![trigger r[k]] 0 <= k < r.len() implies r[k] == t || exists|j: int|
            0 <= j < s.len() && r[k] == s[j] by {
            if k > 0 {
                assert(r[k] == s[k - 1]);
            }
        }
    } else {
        let d = s.drop_first();
        assert(names_sorted(d) && all_wf(d)) by {
            lemma_tail_sorted(s);
        }
        lemma_ins_named_sorted(d, t);
        let rd = ins_named(d, t);
        crate::catalog::lemma_seq_lt(s[0].name, t.name, t.name);
        assert(seq_lt(s[0].name, t.name));
        assert forall|a: int, b: int| 0 <= a < b < r.len() implies seq_lt(#[trigger] r[a].name, #[trigger] r[b].name) by {
            if a > 0 {
                assert(r[a] == rd[a - 1] && r[b] == rd[b - 1]);
            } else {
                assert(r[b] == rd[b - 1]);
                if rd[b - 1] == t {
                } else {
                    let j = choose|j: int| 0 <= j < d.len() && rd[b - 1] == d[j];
                    assert(d[j] == s[j + 1]);
                }
            }
        }
        assert forall|k: int| 0 <= k < r.len() implies wf_tree(#[trigger] r[k]) by {
            if k > 0 {
                assert(r[k] == rd[k - 1]);
            }
        }
        assert forall|k: int| #![trigger r[k]] 0 <= k < r.len() implies r[k] == t || exists|j: int|
            0 <= j < s.len() && r[k] == s[j] by {
            if k > 0 {
                assert(r[k] == rd[k - 1]);
                if rd[k - 1] != t {
                    let j = choose|j: int| 0 <= j < d.len() && rd[k - 1] == d[j];
                    assert(d[j] == s[j + 1]);
                }
            } else {
                assert(r[k] == s[0]);
            }
        }
    }
}

/// Puts `t` in place in the sorted sub-accounts `v` (see `ins_named`).
fn insert_named<T: Arithmetic>(v: &mut Vec<HierAccountView<T>>, t: HierAccountView<T>)
    requires
        names_sorted(hviews(old(v)@)),
        all_wf(hviews(old(v)@)),
    ensures
        hviews(final(v)@) == ins_named(hviews(old(v)@), t@),
        names_sorted(hviews(final(v)@)),
        all_wf(hviews(final(v)@)),
{
    proof {
        use_type_invariant(&t);
        lemma_hviews(v@);
    }
    let ghost sv = hviews(v@);
    let mut i: usize = 0;
    while i < v.len() && v[i].name.lt(&t.name)
        invariant
            i <= v@.len(),
            sv == hviews(v@),
            sv.len() == v@.len(),
            forall|k: int| 0 <= k < sv.len() ==> #[trigger] sv[k] == hview(v@[k]),
            forall|j: int| 0 <= j < i ==> seq_lt(#[trigger] sv[j].name, t@.name),
        decreases v@.len() - i,
    {
        assert(sv[i as int].name == v@[i as int].name@);
        i = i + 1;
    }
    proof {
        if i < v@.len() {
            assert(sv[i as int].name == v@[i as int].name@);
        }
        lemma_ins_named(sv, t@, i as int);
        lemma_ins_named_sorted(sv, t@);
    }
    if i < v.len() && v[i].name.same(&t.name) {
        v.remove(i);
        v.insert(i, t);
        proof {
            lemma_hviews(v@);
            assert(hviews(v@) =~= sv.update(i as int, t@));
        }
    } else {
        v.insert(i, t);
        proof {
            lemma_hviews(v@);
            assert(hviews(v@) =~= sv.insert(i as int, t@));
        }
    }
}

pub proof fn lemma_ssize_drop_last<B>(s: Seq<AccTree<B>>)
    requires
        s.len() > 0,
    ensures
        ssize(s) == ssize(s.drop_last()) + tsize(s.last()),
    decreases s.len(),
{
    if s.len() > 1 {
        let d = s.drop_first();
        lemma_ssize_drop_last(d);
        assert(d.drop_last() =~= s.drop_last().drop_first());
        assert(s.drop_last()[0] == s[0]);
        assert(d.last() == s.last());
        assert(ssize(s.drop_last()) == tsize(s[0]) + ssize(s.drop_last().drop_first()));
    } else {
        assert(s.drop_last().len() == 0);
        assert(s.drop_first().len() == 0);
        assert(ssize(s.drop_first()) == 0);
        assert(ssize(s.drop_last()) == 0);
    }
}

/// `t` compacted: while an account has a single sub-account and its
/// balance equals that sub-account's, the two are one account named by
/// both names joined with `:`; then each sub-account is compacted, and
/// they are put in order of their new names. `None` where a sum of
/// balances overflows.
pub open spec fn compact_tree<T: Arithmetic>(t: AccTree<T::V>) -> Option<AccTree<T::V>>
    decreases tsize(t), 0nat, 0nat,
{
    match bal_sum::<T>(t.subs) {
        None => None,
        Some(s) => if t.subs.len() == 1 && T::same_spec(t.bal, s) {
            let c = t.subs[0];
            let m = AccTree { name: append_spec(t.name, c.name), bal: t.bal, subs: c.subs };
            proof {
                assert(t.subs.drop_first().len() == 0);
                assert(ssize(t.subs.drop_first()) == 0);
                assert(ssize(t.subs) == tsize(c));
            }
            compact_tree::<T>(m)
        } else {
            match compact_subs::<T>(t.subs) {
                Some(cs) => Some(AccTree { name: t.name, bal: t.bal, subs: by_name(cs) }),
                None => None,
            }
        },
    }
}

/// Each of the trees of `s` compacted, in order.
pub open spec fn compact_subs<T: Arithmetic>(s: Seq<AccTree<T::V>>) -> Option<Seq<AccTree<T::V>>>
    decreases ssize(s), 1nat, s.len(),
{
    if s.len() == 0 {
        Some(Seq::empty())
    } else {
        proof {
            lemma_ssize_drop_last(s);
        }
        match compact_subs::<T>(s.drop_last()) {
            Some(a) => match compact_tree::<T>(s.last()) {
                Some(b) => Some(a.push(b)),
                None => None,
            },
            None => None,
        }
    }
}

proof fn lemma_compact_subs_stops<T: Arithmetic>(s: Seq<AccTree<T::V>>, n: int)
    requires
        0 <= n <= s.len(),
        compact_subs::<T>(s.take(n)) is None,
    ensures
        compact_subs::<T>(s) is None,
    decreases s.len(),
{
    if n < s.len() {
        let init = s.drop_last();
        assert(init.take(n) =~= s.take(n));
        lemma_compact_subs_stops::<T>(init, n);
    } else {
        assert(s.take(n) =~= s);
    }
}

/// `t` compacted (see `compact_tree`), as a hierarchical account.
fn compact<T: Arithmetic>(t: HierAccountView<T>) -> (r: Option<HierAccountView<T>>)
    ensures
        r is Some <==> compact_tree::<T>(t@) is Some,
        r matches Some(x) ==> Some(x@) == compact_tree::<T>(t@),
    decreases tsize(t@),
{
    proof {
        use_type_invariant(&t);
        lemma_hviews(t.sub_account@);
    }
    let ghost tv = t@;
    let s = match sum_balances(&t.sub_account) {
        Some(s) => s,
        None => return None,
    };
    if t.sub_account.len() == 1 && t.balance.same_value(&s) {
        let HierAccountView { name, balance, sub_account } = t;
        let mut subs = sub_account;
        let c = subs.remove(0);
        proof {
            use_type_invariant(&c);
            lemma_hviews(c.sub_account@);
        }
        let ghost cv = c@;
        assert(cv == tv.subs[0]);
        let HierAccountView { name: cname, balance: _, sub_account: csubs } = c;
        let mname = name.append(&cname);
        let m = HierAccountView { name: mname, balance, sub_account: csubs };
        proof {
            assert(tv.subs.drop_first().len() == 0);
            assert(ssize(tv.subs.drop_first()) == 0);
            assert(ssize(tv.subs) == tsize(cv));
        }
        return compact(m);
    }
    assert(compact_tree::<T>(tv) == match compact_subs::<T>(tv.subs) {
        Some(cs) => Some(AccTree { name: tv.name, bal: tv.bal, subs: by_name(cs) }),
        None => None,
    });
    let HierAccountView { name, balance, sub_account } = t;
    let ghost orig = sub_account@;
    let ghost sv = hviews(orig);
    let n: usize = sub_account.len();
    let mut rest = sub_account;
    let mut out: Vec<HierAccountView<T>> = Vec::new();
    let ghost mut cs: Seq<AccTree<T::V>> = Seq::empty();
    let mut k: usize = 0;
    assert(sv.take(0) =~= Seq::<AccTree<T::V>>::empty());
    proof {
        lemma_hviews(out@);
        assert(hviews(out@) =~= Seq::<AccTree<T::V>>::empty());
    }
    while rest.len() > 0
        invariant
            k + rest@.len() == n,
            n == orig.len(),
            sv.len() == n,
            tv == t@,
            sv == hviews(orig),
            sv == tv.subs,
            tsize(tv) == 1 + ssize(sv),
            forall|j: int| 0 <= j < sv.len() ==> #[trigger] sv[j] == hview(orig[j]),
            rest@ == orig.subrange(k as int, n as int),
            compact_subs::<T>(sv.take(k as int)) == Some(cs),
            compact_tree::<T>(tv) == match compact_subs::<T>(tv.subs) {
                Some(cs) => Some(AccTree { name: tv.name, bal: tv.bal, subs: by_name(cs) }),
                None => None,
            },
            tv.name == name@,
            tv.bal == balance@,
            hviews(out@) == by_name(cs),
            names_sorted(hviews(out@)),
            all_wf(hviews(out@)),
        decreases rest@.len(),
    {
        let ghost b = rest@;
        let c = rest.remove(0);
        assert(b[0] == orig[k as int]);
        assert(rest@ =~= orig.subrange(k + 1, n as int));
        assert(sv.take(k + 1).drop_last() =~= sv.take(k as int));
        assert(sv.take(k + 1).last() == sv[k as int]);
        proof {
            lemma_ssize_elem(sv, k as int);
        }
        let cc = match compact(c) {
            Some(x) => x,
            None => {
                proof {
                    assert(compact_subs::<T>(sv.take(k + 1)) is None);
                    lemma_compact_subs_stops::<T>(sv, k + 1);
                }
                return None;
            },
        };
        let ghost ccv = cc@;
        insert_named(&mut out, cc);
        proof {
            let prev = cs;
            cs = cs.push(ccv);
            assert(cs.drop_last() =~= prev);
        }
        k = k + 1;
    }
    assert(sv.take(n as int) =~= sv);
    Some(HierAccountView { name, balance, sub_account: out })
}

/// The same account as a compact account.
fn compact_shape<T: Arithmetic>(h: HierAccountView<T>) -> (r: CompactAccountView<T>)
    ensures
        r@ == h@,
    decreases tsize(h@),
{
    proof {
        use_type_invariant(&h);
        lemma_hviews(h.sub_account@);
    }
    let ghost tv = h@;
    let HierAccountView { name, balance, sub_account } = h;
    let ghost orig = sub_account@;
    let ghost sv = hviews(orig);
    let n: usize = sub_account.len();
    let mut rest = sub_account;
    let mut out: Vec<CompactAccountView<T>> = Vec::new();
    let mut k: usize = 0;
    while rest.len() > 0
        invariant
            k + rest@.len() == n,
            n == orig.len(),
            sv.len() == n,
            tv == h@,
            sv == hviews(orig),
            sv == tv.subs,
            tsize(tv) == 1 + ssize(sv),
            forall|j: int| 0 <= j < sv.len() ==> #[trigger] sv[j] == hview(orig[j]),
            rest@ == orig.subrange(k as int, n as int),
            out@.len() == k,
            forall|j: int| 0 <= j < k ==> #[trigger] cview(out@[j]) == sv[j],
        decreases rest@.len(),
    {
        let ghost b = rest@;
        let c = rest.remove(0);
        assert(b[0] == orig[k as int]);
        assert(rest@ =~= orig.subrange(k + 1, n as int));
        proof {
            lemma_ssize_elem(sv, k as int);
        }
        out.push(compact_shape(c));
        k = k + 1;
    }
    proof {
        lemma_cviews(out@);
        assert(cviews(out@) =~= sv);
    }
    CompactAccountView { name, balance, sub_account: out }
}

/// The same account as a hierarchical account.
fn hier_shape<T: Arithmetic>(h: CompactAccountView<T>) -> (r: HierAccountView<T>)
    ensures
        r@ == h@,
    decreases tsize(h@),
{
    proof {
        use_type_invariant(&h);
        lemma_cviews(h.sub_account@);
    }
    let ghost tv = h@;
    let CompactAccountView { name, balance, sub_account } = h;
    let ghost orig = sub_account@;
    let ghost sv = cviews(orig);
    let n: usize = sub_account.len();
    let mut rest = sub_account;
    let mut out: Vec<HierAccountView<T>> = Vec::new();
    let mut k: usize = 0;
    while rest.len() > 0
        invariant
            k + rest@.len() == n,
            n == orig.len(),
            sv.len() == n,
            tv == h@,
            sv == cviews(orig),
            sv == tv.subs,
            tsize(tv) == 1 + ssize(sv),
            forall|j: int| 0 <= j < sv.len() ==> #[trigger] sv[j] == cview(orig[j]),
            rest@ == orig.subrange(k as int, n as int),
            out@.len() == k,
            forall|j: int| 0 <= j < k ==> #[trigger] hview(out@[j]) == sv[j],
        decreases rest@.len(),
    {
        let ghost b = rest@;
        let c = rest.remove(0);
        assert(b[0] == orig[k as int]);
        assert(rest@ =~= orig.subrange(k + 1, n as int));
        proof {
            lemma_ssize_elem(sv, k as int);
        }
        out.push(hier_shape(c));
        k = k + 1;
    }
    proof {
        lemma_hviews(out@);
        assert(hviews(out@) =~= sv);
    }
    HierAccountView { name, balance, sub_account: out }
}

impl<T: Arithmetic> HierAccountView<T> {
    /// A second account equal to this one, sub-accounts included.
    pub fn copy(&self) -> (r: HierAccountView<T>)
        ensures
            r@ == self@,
        decreases tsize(self@),
    {
        proof {
            use_type_invariant(self);
            lemma_hviews(self.sub_account@);
        }
        let ghost sv = hviews(self.sub_account@);
        let mut out: Vec<HierAccountView<T>> = Vec::new();
        let mut k: usize = 0;
        while k < self.sub_account.len()
            invariant
                k <= self.sub_account@.len(),
                sv == hviews(self.sub_account@),
                sv.len() == self.sub_account@.len(),
                sv == self@.subs,
                tsize(self@) == 1 + ssize(sv),
                forall|j: int| 0 <= j < sv.len() ==> #[trigger] sv[j] == hview(self.sub_account@[j]),
                out@.len() == k,
                forall|j: int| 0 <= j < k ==> #[trigger] hview(out@[j]) == sv[j],
            decreases self.sub_account@.len() - k,
        {
            proof {
                lemma_ssize_elem(sv, k as int);
            }
            out.push(self.sub_account[k].copy());
            k = k + 1;
        }
        proof {
            lemma_hviews(out@);
            assert(hviews(out@) =~= sv);
        }
        HierAccountView { name: self.name.duplicate(), balance: self.balance.copy_of(), sub_account: out }
    }
}

/// The same account as a compact account.
pub fn hier_to_compact<T: Arithmetic>(acc: &HierAccountView<T>) -> (r: CompactAccountView<T>)
    ensures
        r@ == acc@,
{
    compact_shape(acc.copy())
}

/// Compacts `parent` (see `compact_tree`) and gives it back as a compact
/// account; `None`, leaving `parent` as it was, where a sum of balances
/// overflows.
pub fn merge_sub_accounts_checked<T: Arithmetic>(parent: &mut HierAccountView<T>) -> (r: Option<
    CompactAccountView<T>,
>)
    ensures
        r is Some <==> compact_tree::<T>(old(parent)@) is Some,
        r matches Some(c) ==> Some(c@) == compact_tree::<T>(old(parent)@) && final(parent)@ == c@,
        r is None ==> final(parent)@ == old(parent)@,
{
    let mut t = HierAccountView::new(AccName::new(""));
    std::mem::swap(parent, &mut t);
    let keep = t.copy();
    match compact(t) {
        Some(c) => {
            let r = hier_to_compact(&c);
            *parent = c;
            Some(r)
        },
        None => {
            *parent = keep;
            None
        },
    }
}

/// Compacts `parent`: while an account has a single sub-account with the
/// same balance the two become one account named by both names joined
/// with `:` (`Assets`, `Bank`, `Checking` of the same balance give
/// `Assets:Bank:Checking`); gives it back as a compact account.
pub fn merge_sub_accounts<T: Arithmetic>(parent: &mut HierAccountView<T>) -> (r: CompactAccountView<T>)
    requires
        compact_tree::<T>(old(parent)@) is Some,
    ensures
        Some(r@) == compact_tree::<T>(old(parent)@),
        final(parent)@ == r@,
{
    merge_sub_accounts_checked(parent).unwrap()
}

impl<T: Arithmetic> CompactAccountView<T> {
    /// The sub-accounts, in name order.
    pub fn sub_accounts(&self) -> (r: &Vec<CompactAccountView<T>>)
        ensures
            cviews(r@) == self@.subs,
            r@.len() == self@.subs.len(),
            names_sorted(self@.subs),
            all_wf(self@.subs),
    {
        proof {
            use_type_invariant(self);
            lemma_cviews(self.sub_account@);
        }
        &self.sub_account
    }

    /// Removes the empty sub-accounts, all the way down (see
    /// `prune_tree`).
    pub fn remove_empty_accounts(&mut self)
        ensures
            final(self)@ == prune_tree::<T>(old(self)@),
    {
        let mut t = compact_shape(HierAccountView::new(AccName::new("")));
        std::mem::swap(self, &mut t);
        *self = compact_shape(prune(hier_shape(t), false));
    }

    /// Removes the sub-accounts whose balance is zero, all the way down
    /// (see `drop_zero_tree`).
    pub fn remove_zero_sub_accounts(&mut self)
        ensures
            final(self)@ == drop_zero_tree::<T>(old(self)@),
    {
        let mut t = compact_shape(HierAccountView::new(AccName::new("")));
        std::mem::swap(self, &mut t);
        *self = compact_shape(prune(hier_shape(t), true));
    }
}

/// Every sub-account of `t`, all the way down, has a name.
pub open spec fn subs_named<B>(t: AccTree<B>) -> bool
    decreases t,
{
    forall|i: int| 0 <= i < t.subs.len() ==> (#[trigger] t.subs[i]).name.len() > 0 && subs_named(t.subs[i])
}

/// `c` with `subs` as the sub-accounts of its first leaf: the account
/// reached by going down to the first sub-account until there is none.
pub open spec fn attach<B>(c: AccTree<B>, subs: Seq<AccTree<B>>) -> AccTree<B>
    decreases c,
{
    if c.subs.len() == 0 {
        AccTree { name: c.name, bal: c.bal, subs }
    } else {
        AccTree { name: c.name, bal: c.bal, subs: c.subs.update(0, attach(c.subs[0], subs)) }
    }
}

/// `t` fully hierarchical: its name split into the chain of its parts
/// (see `chain`), its sub-accounts made fully hierarchical and put, in
/// name order, under the last part (a later one in place of an earlier
/// one of the same name).
pub open spec fn hier_tree<B>(t: AccTree<B>) -> AccTree<B>
    decreases tsize(t), 0nat, 0nat,
{
    proof {
        lemma_ssize_bound(t.subs);
    }
    attach(chain(pop_parts(t.name), t.bal), by_name(hier_list(t.subs)))
}

/// Each of the trees of `s` made fully hierarchical, in order.
pub open spec fn hier_list<B>(s: Seq<AccTree<B>>) -> Seq<AccTree<B>>
    decreases ssize(s), 1nat, s.len(),
{
    if s.len() == 0 {
        Seq::empty()
    } else {
        proof {
            lemma_ssize_drop_last(s);
        }
        hier_list(s.drop_last()).push(hier_tree(s.last()))
    }
}

/// The size of a sequence of trees is at least nothing.
pub proof fn lemma_ssize_bound<B>(s: Seq<AccTree<B>>)
    ensures
        ssize(s) >= 0,
{
}

/// `c` with `subs` under its first leaf (see `attach`).
fn attach_leaf<T: Arithmetic>(c: HierAccountView<T>, subs: Vec<HierAccountView<T>>) -> (r: HierAccountView<T>)
    requires
        names_sorted(hviews(subs@)),
        all_wf(hviews(subs@)),
    ensures
        r@ == attach(c@, hviews(subs@)),
    decreases tsize(c@),
{
    proof {
        use_type_invariant(&c);
        lemma_hviews(c.sub_account@);
    }
    let ghost cv = c@;
    let HierAccountView { name, balance, sub_account } = c;
    if sub_account.len() == 0 {
        return HierAccountView { name, balance, sub_account: subs };
    }
    let mut cs = sub_account;
    let first = cs.remove(0);
    proof {
        lemma_ssize_elem(cv.subs, 0);
        lemma_hviews(cs@);
    }
    let a = attach_leaf(first, subs);
    proof {
        use_type_invariant(&a);
    }
    cs.insert(0, a);
    proof {
        lemma_hviews(cs@);
        let nv = hviews(cs@);
        assert(nv =~= cv.subs.update(0, attach(cv.subs[0], hviews(subs@))));
        assert(attach(cv.subs[0], hviews(subs@)).name == cv.subs[0].name);
        assert forall|i: int, j: int| 0 <= i < j < nv.len() implies seq_lt(#[trigger] nv[i].name, #[trigger] nv[j].name) by {
            assert(seq_lt(cv.subs[i].name, cv.subs[j].name));
        }
        assert forall|i: int| 0 <= i < nv.len() implies wf_tree(#[trigger] nv[i]) by {
            if i > 0 {
                assert(nv[i] == cv.subs[i]);
            }
        }
    }
    HierAccountView { name, balance, sub_account: cs }
}

/// `t` made fully hierarchical (see `hier_tree`).
fn hier_of<T: Arithmetic>(t: HierAccountView<T>) -> (r: HierAccountView<T>)
    requires
        t@.name.len() > 0,
        subs_named(t@),
    ensures
        r@ == hier_tree(t@),
    decreases tsize(t@),
{
    proof {
        use_type_invariant(&t);
        lemma_hviews(t.sub_account@);
    }
    let ghost tv = t@;
    let HierAccountView { name, balance, sub_account } = t;
    let c = build_hier_account(name, balance).unwrap();
    let ghost orig = sub_account@;
    let ghost sv = hviews(orig);
    let n: usize = sub_account.len();
    let mut rest = sub_account;
    let mut out: Vec<HierAccountView<T>> = Vec::new();
    let mut k: usize = 0;
    assert(sv.take(0) =~= Seq::<AccTree<T::V>>::empty());
    proof {
        lemma_hviews(out@);
        assert(hviews(out@) =~= Seq::<AccTree<T::V>>::empty());
    }
    while rest.len() > 0
        invariant
            k + rest@.len() == n,
            n == orig.len(),
            sv.len() == n,
            tv == t@,
            sv == hviews(orig),
            sv == tv.subs,
            subs_named(tv),
            tsize(tv) == 1 + ssize(sv),
            forall|j: int| 0 <= j < sv.len() ==> #[trigger] sv[j] == hview(orig[j]),
            rest@ == orig.subrange(k as int, n as int),
            hviews(out@) == by_name(hier_list(sv.take(k as int))),
            names_sorted(hviews(out@)),
            all_wf(hviews(out@)),
        decreases rest@.len(),
    {
        let ghost b = rest@;
        let x = rest.remove(0);
        assert(b[0] == orig[k as int]);
        assert(rest@ =~= orig.subrange(k + 1, n as int));
        assert(sv.take(k + 1).drop_last() =~= sv.take(k as int));
        assert(sv.take(k + 1).last() == sv[k as int]);
        proof {
            lemma_ssize_elem(sv, k as int);
        }
        assert(sv[k as int].name.len() > 0 && subs_named(sv[k as int]));
        let hx = hier_of(x);
        insert_named(&mut out, hx);
        proof {
            let hl = hier_list(sv.take(k as int));
            let hv = hier_tree(sv[k as int]);
            assert(hier_list(sv.take(k + 1)) == hl.push(hv));
            assert(hl.push(hv).drop_last() =~= hl);
            assert(by_name(hl.push(hv)) == ins_named(by_name(hl), hv));
        }
        k = k + 1;
    }
    assert(sv.take(n as int) =~= sv);
    attach_leaf(c, out)
}

impl<T: Arithmetic> FlatAccountView<T> {
    /// The account `name` with `balance`.
    pub fn new(name: AccName, balance: T) -> (r: Self)
        ensures
            r@ == leaf(name@, balance@),
    {
        FlatAccountView { acc_name: name, balance }
    }

    /// A second account equal to this one.
    pub fn copy(&self) -> (r: Self)
        ensures
            r@ == self@,
    {
        FlatAccountView { acc_name: self.acc_name.duplicate(), balance: self.balance.copy_of() }
    }
}

/// Putting no sub-accounts under the first leaf changes nothing.
proof fn lemma_attach_empty<B>(c: AccTree<B>)
    requires
        wf_tree(c),
    ensures
        attach(c, Seq::empty()) == c,
    decreases c,
{
    if c.subs.len() == 0 {
        assert(attach(c, Seq::empty()).subs =~= c.subs);
    } else {
        lemma_attach_empty(c.subs[0]);
        assert(c.subs.update(0, attach(c.subs[0], Seq::empty())) =~= c.subs);
    }
}

/// An account seen flat, fully hierarchical or compact: the same name
/// and balance, and sub-accounts where the view has them.
pub trait AccountView: Sized {
    /// The balance of the account.
    type TsValue: Arithmetic;

    /// The account by value.
    spec fn tree(&self) -> AccTree<<Self::TsValue as View>::V>;

    /// Whether `t` is the value of an account of this kind: without
    /// sub-accounts for a flat account, well formed for the others.
    spec fn kind_ok(t: AccTree<<Self::TsValue as View>::V>) -> bool;

    /// `a` with `b` added to it: a flat account adds the balances, the
    /// others merge as `tree_merge` does; `None` where a sum overflows.
    spec fn absorb_spec(a: AccTree<<Self::TsValue as View>::V>, b: AccTree<<Self::TsValue as View>::V>) -> Option<
        AccTree<<Self::TsValue as View>::V>,
    >;

    /// Every account of this kind is well formed.
    fn check(&self)
        ensures
            Self::kind_ok(self.tree()),
            wf_tree(self.tree()),
    ;

    /// The name of the account.
    fn name(&self) -> (r: &AccName)
        ensures
            r@ == self.tree().name,
    ;

    /// The balance of the account.
    fn balance(&self) -> (r: &Self::TsValue)
        ensures
            r@ == self.tree().bal,
    ;

    /// `self` with `other` added (see `absorb_spec`).
    fn absorb(self, other: Self) -> (r: Option<Self>)
        ensures
            r is Some <==> Self::absorb_spec(self.tree(), other.tree()) is Some,
            r matches Some(x) ==> Some(x.tree()) == Self::absorb_spec(self.tree(), other.tree()),
    ;

    /// The flat accounts of the account (see `flat_of`).
    fn to_flat(self) -> (r: Option<Vec<FlatAccountView<Self::TsValue>>>)
        ensures
            r is Some <==> flat_of::<Self::TsValue>(self.tree(), self.tree().name) is Some,
            r matches Some(v) ==> Some(fviews(v@)) == flat_of::<Self::TsValue>(self.tree(), self.tree().name),
    ;

    /// The account made fully hierarchical (see `hier_tree`); `None` for
    /// an account without a name.
    fn to_hier(self) -> (r: Option<HierAccountView<Self::TsValue>>)
        requires
            subs_named(self.tree()),
        ensures
            r is None <==> self.tree().name.len() == 0,
            r matches Some(h) ==> h@ == hier_tree(self.tree()),
    ;

    /// The account made fully hierarchical, then compacted (see
    /// `compact_tree`); `None` where a sum of balances overflows.
    fn to_compact(self) -> (r: Option<CompactAccountView<Self::TsValue>>)
        requires
            subs_named(self.tree()),
            self.tree().name.len() > 0,
        ensures
            r is Some <==> compact_tree::<Self::TsValue>(hier_tree(self.tree())) is Some,
            r matches Some(c) ==> Some(c@) == compact_tree::<Self::TsValue>(hier_tree(self.tree())),
    {
        let mut h = self.to_hier().unwrap();
        merge_sub_accounts_checked(&mut h)
    }
}

impl<T: Arithmetic> AccountView for FlatAccountView<T> {
    type TsValue = T;

    open spec fn tree(&self) -> AccTree<T::V> {
        self@
    }

    open spec fn kind_ok(t: AccTree<T::V>) -> bool {
        t.subs.len() == 0
    }

    open spec fn absorb_spec(a: AccTree<T::V>, b: AccTree<T::V>) -> Option<AccTree<T::V>> {
        match T::merge_spec(a.bal, b.bal, false) {
            Some(x) => Some(leaf(a.name, x)),
            None => None,
        }
    }

    fn check(&self) {
    }

    fn name(&self) -> (r: &AccName) {
        &self.acc_name
    }

    fn balance(&self) -> (r: &T) {
        &self.balance
    }

    fn absorb(self, other: Self) -> (r: Option<Self>) {
        let FlatAccountView { acc_name, balance } = self;
        match balance.merged(other.balance, false) {
            Some(b) => Some(FlatAccountView { acc_name, balance: b }),
            None => None,
        }
    }

    fn to_flat(self) -> (r: Option<Vec<FlatAccountView<T>>>) {
        let ghost v = self@;
        let mut r: Vec<FlatAccountView<T>> = Vec::new();
        r.push(self);
        proof {
            assert(flat_subs::<T>(v.subs, v.name) == Some(Seq::<AccTree<T::V>>::empty()));
            assert(fviews(r@) =~= seq![leaf(v.name, v.bal)] + Seq::<AccTree<T::V>>::empty());
        }
        Some(r)
    }

    fn to_hier(self) -> (r: Option<HierAccountView<T>>) {
        let ghost v = self@;
        let r = build_hier_account(self.acc_name, self.balance);
        proof {
            assert(by_name(hier_list(v.subs)) =~= Seq::<AccTree<T::V>>::empty());
            lemma_chain_wf(pop_parts(v.name), v.bal);
            lemma_attach_empty(chain(pop_parts(v.name), v.bal));
        }
        r
    }
}

impl<T: Arithmetic> AccountView for HierAccountView<T> {
    type TsValue = T;

    open spec fn tree(&self) -> AccTree<T::V> {
        self@
    }

    open spec fn kind_ok(t: AccTree<T::V>) -> bool {
        wf_tree(t)
    }

    open spec fn absorb_spec(a: AccTree<T::V>, b: AccTree<T::V>) -> Option<AccTree<T::V>> {
        tree_merge::<T>(a, b)
    }

    fn check(&self) {
        proof {
            use_type_invariant(self);
        }
    }

    fn name(&self) -> (r: &AccName) {
        &self.name
    }

    fn balance(&self) -> (r: &T) {
        &self.balance
    }

    fn absorb(self, other: Self) -> (r: Option<Self>) {
        merge_hier_account_checked(self, other)
    }

    fn to_flat(self) -> (r: Option<Vec<FlatAccountView<T>>>) {
        flatten_account_checked(self)
    }

    fn to_hier(self) -> (r: Option<HierAccountView<T>>) {
        if self.name.is_empty() {
            None
        } else {
            Some(hier_of(self))
        }
    }
}

impl<T: Arithmetic> AccountView for CompactAccountView<T> {
    type TsValue = T;

    open spec fn tree(&self) -> AccTree<T::V> {
        self@
    }

    open spec fn kind_ok(t: AccTree<T::V>) -> bool {
        wf_tree(t)
    }

    open spec fn absorb_spec(a: AccTree<T::V>, b: AccTree<T::V>) -> Option<AccTree<T::V>> {
        tree_merge::<T>(a, b)
    }

    fn check(&self) {
        proof {
            use_type_invariant(self);
        }
    }

    fn name(&self) -> (r: &AccName) {
        &self.name
    }

    fn balance(&self) -> (r: &T) {
        &self.balance
    }

    fn absorb(self, other: Self) -> (r: Option<Self>) {
        match merge_hier_account_checked(hier_shape(self), hier_shape(other)) {
            Some(h) => Some(compact_shape(h)),
            None => None,
        }
    }

    fn to_flat(self) -> (r: Option<Vec<FlatAccountView<T>>>) {
        flatten_account_checked(hier_shape(self))
    }

    fn to_hier(self) -> (r: Option<HierAccountView<T>>) {
        hier_shape(self).to_hier()
    }
}

/// The values of `m` priced under valuation `val`, date by date.
pub open spec fn ts_valued<V: Valuable + Arithmetic>(m: Map<Date, V::V>, val: Valuation) -> Map<Date, Seq<Entry>> {
    Map::new(|d: Date| m.dom().contains(d), |d: Date| V::value_spec(m[d], val).unwrap())
}

/// Every balance of `t`, all the way down, can be priced under `val`.
pub open spec fn tree_value_ok<V: Valuable + Arithmetic>(t: AccTree<Map<Date, V::V>>, val: Valuation) -> bool
    decreases t,
{
    &&& ts_value_ok::<V>(t.bal, val)
    &&& forall|i: int| 0 <= i < t.subs.len() ==> tree_value_ok::<V>(#[trigger] t.subs[i], val)
}

/// `t` with every balance priced under valuation `val`.
pub open spec fn tree_valued<V: Valuable + Arithmetic>(t: AccTree<Map<Date, V::V>>, val: Valuation) -> AccTree<
    Map<Date, Seq<Entry>>,
>
    decreases t, 0nat,
{
    AccTree { name: t.name, bal: ts_valued::<V>(t.bal, val), subs: valued_list::<V>(t.subs, val) }
}

/// Each of the trees of `s` priced under valuation `val`.
pub open spec fn valued_list<V: Valuable + Arithmetic>(s: Seq<AccTree<Map<Date, V::V>>>, val: Valuation) -> Seq<
    AccTree<Map<Date, Seq<Entry>>>,
>
    decreases s, s.len(),
{
    if s.len() == 0 {
        Seq::empty()
    } else {
        valued_list::<V>(s.drop_last(), val).push(tree_valued::<V>(s.last(), val))
    }
}

proof fn lemma_valued_list<V: Valuable + Arithmetic>(s: Seq<AccTree<Map<Date, V::V>>>, val: Valuation)
    ensures
        valued_list::<V>(s, val).len() == s.len(),
        forall|i: int| 0 <= i < s.len() ==> #[trigger] valued_list::<V>(s, val)[i] == tree_valued::<V>(s[i], val),
    decreases s.len(),
{
    if s.len() > 0 {
        lemma_valued_list::<V>(s.drop_last(), val);
    }
}

/// The balance priced (see `TAmount::valued_in`), as the map it is.
fn valued_balance<V: Valuable + Arithmetic>(b: &TAmount<V>, val: Valuation) -> (r: Option<TAmount<Amount>>)
    ensures
        r is Some <==> ts_value_ok::<V>(b@, val),
        r matches Some(x) ==> x@ == ts_valued::<V>(b@, val),
{
    let r = b.valued_in(val);
    match r {
        Some(x) => {
            assert(x@ =~= ts_valued::<V>(b@, val));
            Some(x)
        },
        None => None,
    }
}

impl<V: Valuable + Arithmetic> FlatAccountView<TAmount<V>> {
    /// The account with its balance priced under valuation `val`; `None`
    /// where a price overflows.
    pub fn valued_in(&self, val: Valuation) -> (r: Option<FlatAccountView<TAmount<Amount>>>)
        ensures
            r is Some <==> tree_value_ok::<V>(self@, val),
            r matches Some(x) ==> x@ == tree_valued::<V>(self@, val),
    {
        let b = match valued_balance(&self.balance, val) {
            Some(b) => b,
            None => return None,
        };
        let r = FlatAccountView { acc_name: self.acc_name.duplicate(), balance: b };
        assert(r@.subs =~= valued_list::<V>(self@.subs, val));
        Some(r)
    }
}

impl<V: Valuable + Arithmetic> HierAccountView<TAmount<V>> {
    /// The account with every balance priced under valuation `val`, all
    /// the way down; `None` where a price overflows.
    pub fn valued_in(&self, val: Valuation) -> (r: Option<HierAccountView<TAmount<Amount>>>)
        ensures
            r is Some <==> tree_value_ok::<V>(self@, val),
            r matches Some(x) ==> x@ == tree_valued::<V>(self@, val),
        decreases tsize(self@),
    {
        proof {
            use_type_invariant(self);
            lemma_hviews(self.sub_account@);
        }
        let b = match valued_balance(&self.balance, val) {
            Some(b) => b,
            None => return None,
        };
        let ghost sv = hviews(self.sub_account@);
        let mut out: Vec<HierAccountView<TAmount<Amount>>> = Vec::new();
        let mut k: usize = 0;
        while k < self.sub_account.len()
            invariant
                k <= self.sub_account@.len(),
                sv == hviews(self.sub_account@),
                sv.len() == self.sub_account@.len(),
                sv == self@.subs,
                names_sorted(sv),
                tsize(self@) == 1 + ssize(sv),
                forall|j: int| 0 <= j < sv.len() ==> #[trigger] sv[j] == hview(self.sub_account@[j]),
                out@.len() == k,
                forall|j: int| 0 <= j < k ==> tree_value_ok::<V>(#[trigger] sv[j], val),
                forall|j: int| 0 <= j < k ==> #[trigger] hview(out@[j]) == tree_valued::<V>(sv[j], val),
                forall|j: int| 0 <= j < k ==> wf_tree(#[trigger] hview(out@[j])),
            decreases self.sub_account@.len() - k,
        {
            proof {
                lemma_ssize_elem(sv, k as int);
            }
            let x = match self.sub_account[k].valued_in(val) {
                Some(x) => x,
                None => {
                    assert(!tree_value_ok::<V>(sv[k as int], val));
                    return None;
                },
            };
            proof {
                use_type_invariant(&x);
            }
            out.push(x);
            k = k + 1;
        }
        proof {
            lemma_hviews(out@);
            lemma_valued_list::<V>(sv, val);
            assert(hviews(out@) =~= valued_list::<V>(sv, val));
            let o = hviews(out@);
            assert forall|i: int, j: int| 0 <= i < j < o.len() implies seq_lt(#[trigger] o[i].name, #[trigger] o[j].name) by {
                assert(seq_lt(sv[i].name, sv[j].name));
            }
        }
        Some(HierAccountView { name: self.name.duplicate(), balance: b, sub_account: out })
    }
}

impl<V: Valuable + Arithmetic> CompactAccountView<TAmount<V>> {
    /// The account with every balance priced under valuation `val`, all
    /// the way down; `None` where a price overflows.
    pub fn valued_in(&self, val: Valuation) -> (r: Option<CompactAccountView<TAmount<Amount>>>)
        ensures
            r is Some <==> tree_value_ok::<V>(self@, val),
            r matches Some(x) ==> x@ == tree_valued::<V>(self@, val),
        decreases tsize(self@),
    {
        proof {
            use_type_invariant(self);
            lemma_cviews(self.sub_account@);
        }
        let b = match valued_balance(&self.balance, val) {
            Some(b) => b,
            None => return None,
        };
        let ghost sv = cviews(self.sub_account@);
        let mut out: Vec<CompactAccountView<TAmount<Amount>>> = Vec::new();
        let mut k: usize = 0;
        while k < self.sub_account.len()
            invariant
                k <= self.sub_account@.len(),
                sv == cviews(self.sub_account@),
                sv.len() == self.sub_account@.len(),
                sv == self@.subs,
                names_sorted(sv),
                tsize(self@) == 1 + ssize(sv),
                forall|j: int| 0 <= j < sv.len() ==> #[trigger] sv[j] == cview(self.sub_account@[j]),
                out@.len() == k,
                forall|j: int| 0 <= j < k ==> tree_value_ok::<V>(#[trigger] sv[j], val),
                forall|j: int| 0 <= j < k ==> #[trigger] cview(out@[j]) == tree_valued::<V>(sv[j], val),
                forall|j: int| 0 <= j < k ==> wf_tree(#[trigger] cview(out@[j])),
            decreases self.sub_account@.len() - k,
        {
            proof {
                lemma_ssize_elem(sv, k as int);
            }
            let x = match self.sub_account[k].valued_in(val) {
                Some(x) => x,
                None => {
                    assert(!tree_value_ok::<V>(sv[k as int], val));
                    return None;
                },
            };
            proof {
                use_type_invariant(&x);
            }
            out.push(x);
            k = k + 1;
        }
        proof {
            lemma_cviews(out@);
            lemma_valued_list::<V>(sv, val);
            assert(cviews(out@) =~= valued_list::<V>(sv, val));
            let o = cviews(out@);
            assert forall|i: int, j: int| 0 <= i < j < o.len() implies seq_lt(#[trigger] o[i].name, #[trigger] o[j].name) by {
                assert(seq_lt(sv[i].name, sv[j].name));
            }
        }
        Some(CompactAccountView { name: self.name.duplicate(), balance: b, sub_account: out })
    }
}

} // verus!
