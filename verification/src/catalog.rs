//! What a journal holds: its accounts, commodities and payees, each
//! sorted in string order without duplicates.

use vstd::prelude::*;

use crate::journal::AccName;
use crate::report::JnlInfo;
use crate::symbol::Symbol;
use crate::text::{chars_of, string_of};
use crate::xact::{Posting, Xact};

verus! {

/// The order of strings: character by character, a proper prefix first.
pub open spec fn seq_lt(a: Seq<char>, b: Seq<char>) -> bool
    decreases a.len(),
{
    if a.len() == 0 {
        b.len() > 0
    } else if b.len() == 0 {
        false
    } else if a[0] != b[0] {
        (a[0] as int) < (b[0] as int)
    } else {
        seq_lt(a.skip(1), b.skip(1))
    }
}

/// The strings held by vectors of characters.
pub open spec fn char_views(v: Seq<Vec<char>>) -> Seq<Seq<char>> {
    v.map_values(|e: Vec<char>| e@)
}

/// Each string comes before the next one: sorted and without duplicates.
pub open spec fn sorted_strict(s: Seq<Seq<char>>) -> bool {
    forall|i: int, j: int| 0 <= i < j < s.len() ==> seq_lt(#[trigger] s[i], #[trigger] s[j])
}

proof fn lemma_seq_lt_irrefl(a: Seq<char>)
    ensures
        !seq_lt(a, a),
    decreases a.len(),
{
    if a.len() > 0 {
        lemma_seq_lt_irrefl(a.skip(1));
    }
}

proof fn lemma_seq_lt_total(a: Seq<char>, b: Seq<char>)
    ensures
        a != b ==> seq_lt(a, b) || seq_lt(b, a),
        seq_lt(a, b) ==> !seq_lt(b, a),
    decreases a.len(),
{
    if a.len() > 0 && b.len() > 0 {
        lemma_seq_lt_total(a.skip(1), b.skip(1));
        if a[0] == b[0] && a.skip(1) == b.skip(1) {
            assert(a =~= seq![a[0]] + a.skip(1));
            assert(b =~= seq![b[0]] + b.skip(1));
        }
    } else if a.len() == 0 && b.len() == 0 {
        assert(a =~= b);
    }
}

proof fn lemma_seq_lt_trans(a: Seq<char>, b: Seq<char>, c: Seq<char>)
    ensures
        seq_lt(a, b) && seq_lt(b, c) ==> seq_lt(a, c),
    decreases a.len(),
{
    if a.len() > 0 && b.len() > 0 && c.len() > 0 {
        lemma_seq_lt_trans(a.skip(1), b.skip(1), c.skip(1));
    }
}

/// The order of strings is strict and total.
pub proof fn lemma_seq_lt(a: Seq<char>, b: Seq<char>, c: Seq<char>)
    ensures
        !seq_lt(a, a),
        a != b ==> seq_lt(a, b) || seq_lt(b, a),
        seq_lt(a, b) ==> !seq_lt(b, a),
        seq_lt(a, b) && seq_lt(b, c) ==> seq_lt(a, c),
{
    lemma_seq_lt_irrefl(a);
    lemma_seq_lt_total(a, b);
    lemma_seq_lt_trans(a, b, c);
}

proof fn lemma_char_views_push(v: Seq<Vec<char>>, x: Vec<char>)
    ensures
        char_views(v.push(x)) == char_views(v).push(x@),
{
    assert(char_views(v.push(x)) =~= char_views(v).push(x@));
}

proof fn lemma_char_views_rest(v: Seq<Vec<char>>)
    requires
        v.len() > 0,
    ensures
        char_views(v.remove(0)) == char_views(v).subrange(1, v.len() as int),
        char_views(v)[0] == v[0]@,
{
    assert(char_views(v.remove(0)) =~= char_views(v).subrange(1, v.len() as int));
}

proof fn lemma_seq_lt_prefix(a: Seq<char>, b: Seq<char>, i: int)
    requires
        0 <= i <= a.len(),
        i <= b.len(),
        forall|k: int| 0 <= k < i ==> a[k] == b[k],
    ensures
        seq_lt(a, b) == seq_lt(a.skip(i), b.skip(i)),
    decreases i,
{
    if i > 0 {
        lemma_seq_lt_prefix(a.skip(1), b.skip(1), i - 1);
        assert(a.skip(1).skip(i - 1) =~= a.skip(i));
        assert(b.skip(1).skip(i - 1) =~= b.skip(i));
    } else {
        assert(a.skip(0) =~= a);
        assert(b.skip(0) =~= b);
    }
}

/// Whether `a` comes before `b` in string order.
pub(crate) fn lt_chars(a: &Vec<char>, b: &Vec<char>) -> (r: bool)
    ensures
        r == seq_lt(a@, b@),
{
    let mut i: usize = 0;
    while i < a.len() && i < b.len() && a[i] == b[i]
        invariant
            i <= a@.len(),
            i <= b@.len(),
            forall|k: int| 0 <= k < i ==> a@[k] == b@[k],
        decreases a@.len() - i,
    {
        i = i + 1;
    }
    proof {
        lemma_seq_lt_prefix(a@, b@, i as int);
    }
    if i == a.len() {
        i < b.len()
    } else if i == b.len() {
        false
    } else {
        a[i] < b[i]
    }
}

/// Adds `x` to the sorted strings `v`, unless it is there already.
fn insert_sorted(v: &mut Vec<Vec<char>>, x: Vec<char>)
    requires
        sorted_strict(char_views(old(v)@)),
    ensures
        sorted_strict(char_views(final(v)@)),
        forall|n: Seq<char>|
            #[trigger] char_views(final(v)@).contains(n) <==> (char_views(old(v)@).contains(n) || n == x@),
{
    let ghost s = char_views(v@);
    let mut i: usize = 0;
    while i < v.len() && lt_chars(&v[i], &x)
        invariant
            i <= v@.len(),
            s == char_views(v@),
            s.len() == v@.len(),
            sorted_strict(s),
            forall|k: int| 0 <= k < i ==> seq_lt(#[trigger] s[k], x@),
        decreases v@.len() - i,
    {
        assert(s[i as int] == v@[i as int]@);
        i = i + 1;
    }
    if i < v.len() && !lt_chars(&x, &v[i]) {
        proof {
            assert(s[i as int] == v@[i as int]@);
            lemma_seq_lt(s[i as int], x@, x@);
            assert(s[i as int] == x@);
        }
        return;
    }
    proof {
        if i < v@.len() {
            assert(s[i as int] == v@[i as int]@);
            lemma_seq_lt(s[i as int], x@, x@);
        }
    }
    v.insert(i, x);
    proof {
        let t = char_views(v@);
        assert(t =~= s.insert(i as int, x@));
        assert forall|a: int, b: int| 0 <= a < b < t.len() implies seq_lt(#[trigger] t[a], #[trigger] t[b]) by {
            if b < i {
                assert(t[a] == s[a] && t[b] == s[b]);
            } else if b == i {
                assert(t[a] == s[a]);
            } else if a < i {
                assert(t[a] == s[a] && t[b] == s[b - 1]);
                lemma_seq_lt(s[a], x@, s[i as int]);
                if b - 1 > i {
                    lemma_seq_lt(x@, s[i as int], s[b - 1]);
                    lemma_seq_lt(s[a], x@, s[b - 1]);
                }
            } else if a == i {
                assert(t[b] == s[b - 1]);
                if b - 1 > i {
                    lemma_seq_lt(x@, s[i as int], s[b - 1]);
                }
            } else {
                assert(t[a] == s[a - 1] && t[b] == s[b - 1]);
            }
        }
        assert forall|n: Seq<char>| t.contains(n) <==> (s.contains(n) || n == x@) by {
            if t.contains(n) {
                let k = choose|k: int| 0 <= k < t.len() && t[k] == n;
                if k < i {
                    assert(s[k] == n);
                } else if k > i {
                    assert(s[k - 1] == n);
                }
            }
            if s.contains(n) {
                let k = choose|k: int| 0 <= k < s.len() && s[k] == n;
                if k < i {
                    assert(t[k] == n);
                } else {
                    assert(t[k + 1] == n);
                }
            }
            if n == x@ {
                assert(t[i as int] == n);
            }
        }
    }
}

/// The account names of the postings of `xs`, in order.
pub open spec fn account_names(xs: Seq<Xact>) -> Seq<Seq<char>>
    decreases xs.len(),
{
    if xs.len() == 0 {
        Seq::empty()
    } else {
        account_names(xs.drop_last()) + xs.last().postings@.map_values(|p: Posting| p.acc_name@)
    }
}

/// The commodity symbols of the postings of `xs`, in order.
pub open spec fn commodity_names(xs: Seq<Xact>) -> Seq<Seq<char>>
    decreases xs.len(),
{
    if xs.len() == 0 {
        Seq::empty()
    } else {
        commodity_names(xs.drop_last()) + xs.last().postings@.map_values(|p: Posting| p.quantity.s@)
    }
}

/// The payees of `xs`, in order.
pub open spec fn payee_names(xs: Seq<Xact>) -> Seq<Seq<char>> {
    xs.map_values(|x: Xact| x.payee@)
}

/// `r` holds the strings of `names`, sorted, each once.
pub open spec fn sorted_set_of(r: Seq<Seq<char>>, names: Seq<Seq<char>>) -> bool {
    &&& sorted_strict(r)
    &&& forall|n: Seq<char>| r.contains(n) <==> names.contains(n)
}

/// Adds each string of `names` to the sorted strings `v`.
fn insert_all(v: &mut Vec<Vec<char>>, names: Vec<Vec<char>>)
    requires
        sorted_strict(char_views(old(v)@)),
    ensures
        sorted_strict(char_views(final(v)@)),
        forall|n: Seq<char>|
            #[trigger] char_views(final(v)@).contains(n) <==> (char_views(old(v)@).contains(n) || char_views(names@).contains(n)),
{
    let ghost s0 = char_views(v@);
    let ghost ns = char_views(names@);
    let total = names.len();
    let mut todo = names;
    let mut k: usize = 0;
    while todo.len() > 0
        invariant
            total == ns.len(),
            k + todo@.len() == ns.len(),
            char_views(todo@) == ns.subrange(k as int, ns.len() as int),
            sorted_strict(char_views(v@)),
            forall|n: Seq<char>|
                #[trigger] char_views(v@).contains(n) <==> (s0.contains(n) || ns.take(
                    k as int,
                ).contains(n)),
        decreases todo@.len(),
    {
        let ghost before = todo@;
        proof {
            lemma_char_views_rest(before);
        }
        let x = todo.remove(0);
        assert(x@ == ns[k as int]);
        assert(char_views(todo@) =~= ns.subrange(k + 1, ns.len() as int));
        insert_sorted(v, x);
        proof {
            let t1 = ns.take(k + 1);
            let t0 = ns.take(k as int);
            assert forall|n: Seq<char>| t1.contains(n) <==> (t0.contains(n) || n == ns[k as int]) by {
                if t1.contains(n) {
                    let j = choose|j: int| 0 <= j < t1.len() && t1[j] == n;
                    if j < k {
                        assert(t0[j] == n);
                    }
                }
                if t0.contains(n) {
                    let j = choose|j: int| 0 <= j < t0.len() && t0[j] == n;
                    assert(t1[j] == n);
                }
                if n == ns[k as int] {
                    assert(t1[k as int] == n);
                }
            }
        }
        k = k + 1;
    }
    assert(ns.take(ns.len() as int) =~= ns);
}

/// Walks the transactions and lists their accounts, commodities and
/// payees, each sorted in string order and without duplicates.
pub fn scan(xacts: &[Xact]) -> (r: JnlInfo)
    ensures
        sorted_set_of(r.accounts@.map_values(|a: AccName| a@), account_names(xacts@)),
        sorted_set_of(r.commodities@.map_values(|s: Symbol| s@), commodity_names(xacts@)),
        sorted_set_of(r.payees@.map_values(|p: String| p@), payee_names(xacts@)),
{
    let mut accs: Vec<Vec<char>> = Vec::new();
    let mut syms: Vec<Vec<char>> = Vec::new();
    let mut pays: Vec<Vec<char>> = Vec::new();
    let mut i: usize = 0;
    assert(char_views(accs@) =~= Seq::<Seq<char>>::empty());
    while i < xacts.len()
        invariant
            i <= xacts@.len(),
            sorted_strict(char_views(accs@)),
            sorted_strict(char_views(syms@)),
            sorted_strict(char_views(pays@)),
            forall|n: Seq<char>| #[trigger] char_views(accs@).contains(n) <==> account_names(xacts@.take(i as int)).contains(n),
            forall|n: Seq<char>| #[trigger] char_views(syms@).contains(n) <==> commodity_names(xacts@.take(i as int)).contains(n),
            forall|n: Seq<char>| #[trigger] char_views(pays@).contains(n) <==> payee_names(xacts@.take(i as int)).contains(n),
        decreases xacts@.len() - i,
    {
        let x = &xacts[i];
        let mut an: Vec<Vec<char>> = Vec::new();
        let mut sn: Vec<Vec<char>> = Vec::new();
        let mut j: usize = 0;
        while j < x.postings.len()
            invariant
                j <= x.postings@.len(),
                char_views(an@) == x.postings@.take(j as int).map_values(|p: Posting| p.acc_name@),
                char_views(sn@) == x.postings@.take(j as int).map_values(|p: Posting| p.quantity.s@),
            decreases x.postings@.len() - j,
        {
            let p = &x.postings[j];
            let ghost an0 = an@;
            let ghost sn0 = sn@;
            let ac = chars_of(p.acc_name.as_str());
            let sc = chars_of(p.quantity.s.name().as_str());
            proof {
                lemma_char_views_push(an0, ac);
                lemma_char_views_push(sn0, sc);
                assert(x.postings@.take(j + 1).map_values(|p: Posting| p.acc_name@) =~= x.postings@.take(
                    j as int,
                ).map_values(|p: Posting| p.acc_name@).push(p.acc_name@));
                assert(x.postings@.take(j + 1).map_values(|p: Posting| p.quantity.s@) =~= x.postings@.take(
                    j as int,
                ).map_values(|p: Posting| p.quantity.s@).push(p.quantity.s@));
            }
            an.push(ac);
            sn.push(sc);
            j = j + 1;
        }
        assert(x.postings@.take(x.postings@.len() as int) =~= x.postings@);
        let ghost a_prev = char_views(accs@);
        let ghost s_prev = char_views(syms@);
        let ghost p_prev = char_views(pays@);
        let ghost an_v = char_views(an@);
        let ghost sn_v = char_views(sn@);
        insert_all(&mut accs, an);
        insert_all(&mut syms, sn);
        let pc = chars_of(x.payee.as_str());
        let ghost pv = pc@;
        insert_sorted(&mut pays, pc);
        proof {
            let t = xacts@.take(i + 1);
            assert(t.drop_last() =~= xacts@.take(i as int));
            assert(t.last() == xacts@[i as int]);
            assert forall|n: Seq<char>| (a_prev.contains(n) || an_v.contains(n)) <==> account_names(t).contains(n) by {
                lemma_contains_concat(account_names(xacts@.take(i as int)), an_v, n);
            }
            assert forall|n: Seq<char>| (s_prev.contains(n) || sn_v.contains(n)) <==> commodity_names(t).contains(n) by {
                lemma_contains_concat(commodity_names(xacts@.take(i as int)), sn_v, n);
            }
            assert(payee_names(t) =~= payee_names(xacts@.take(i as int)).push(pv));
            assert forall|n: Seq<char>| #[trigger] char_views(pays@).contains(n) <==> payee_names(t).contains(n) by {
                assert(p_prev.contains(n) <==> payee_names(xacts@.take(i as int)).contains(n));
                lemma_contains_concat(payee_names(xacts@.take(i as int)), seq![pv], n);
                assert(payee_names(xacts@.take(i as int)).push(pv) =~= payee_names(xacts@.take(i as int)) + seq![pv]);
                assert(seq![pv].contains(n) <==> n == pv) by {
                    if n == pv {
                        assert(seq![pv][0] == n);
                    }
                }
            }
        }
        i = i + 1;
    }
    assert(xacts@.take(xacts@.len() as int) =~= xacts@);
    JnlInfo { accounts: to_accounts(&accs), commodities: to_symbols(&syms), payees: to_strings(&pays) }
}

proof fn lemma_contains_concat(a: Seq<Seq<char>>, b: Seq<Seq<char>>, n: Seq<char>)
    ensures
        (a + b).contains(n) <==> (a.contains(n) || b.contains(n)),
{
    if (a + b).contains(n) {
        let k = choose|k: int| 0 <= k < (a + b).len() && (a + b)[k] == n;
        if k < a.len() {
            assert(a[k] == n);
        } else {
            assert(b[k - a.len()] == n);
        }
    }
    if a.contains(n) {
        let k = choose|k: int| 0 <= k < a.len() && a[k] == n;
        assert((a + b)[k] == n);
    }
    if b.contains(n) {
        let k = choose|k: int| 0 <= k < b.len() && b[k] == n;
        assert((a + b)[k + a.len()] == n);
    }
}

fn to_accounts(v: &Vec<Vec<char>>) -> (r: Vec<AccName>)
    ensures
        r@.map_values(|a: AccName| a@) == char_views(v@),
{
    let mut r: Vec<AccName> = Vec::new();
    let mut i: usize = 0;
    while i < v.len()
        invariant
            i <= v@.len(),
            r@.map_values(|a: AccName| a@) == char_views(v@.take(i as int)),
        decreases v@.len() - i,
    {
        let ghost r0 = r@;
        r.push(AccName::from_string(string_of(v[i].as_slice())));
        proof {
            lemma_char_views_push(v@.take(i as int), v@[i as int]);
            assert(v@.take(i + 1) =~= v@.take(i as int).push(v@[i as int]));
            assert(r@.map_values(|a: AccName| a@) =~= r0.map_values(|a: AccName| a@).push(r@.last()@));
        }
        i = i + 1;
    }
    assert(v@.take(v@.len() as int) =~= v@);
    r
}

fn to_symbols(v: &Vec<Vec<char>>) -> (r: Vec<Symbol>)
    ensures
        r@.map_values(|s: Symbol| s@) == char_views(v@),
{
    let mut r: Vec<Symbol> = Vec::new();
    let mut i: usize = 0;
    while i < v.len()
        invariant
            i <= v@.len(),
            r@.map_values(|s: Symbol| s@) == char_views(v@.take(i as int)),
        decreases v@.len() - i,
    {
        let ghost r0 = r@;
        r.push(Symbol::from_chars(v[i].as_slice()));
        proof {
            lemma_char_views_push(v@.take(i as int), v@[i as int]);
            assert(v@.take(i + 1) =~= v@.take(i as int).push(v@[i as int]));
            assert(r@.map_values(|s: Symbol| s@) =~= r0.map_values(|s: Symbol| s@).push(r@.last()@));
        }
        i = i + 1;
    }
    assert(v@.take(v@.len() as int) =~= v@);
    r
}

fn to_strings(v: &Vec<Vec<char>>) -> (r: Vec<String>)
    ensures
        r@.map_values(|p: String| p@) == char_views(v@),
{
    let mut r: Vec<String> = Vec::new();
    let mut i: usize = 0;
    while i < v.len()
        invariant
            i <= v@.len(),
            r@.map_values(|p: String| p@) == char_views(v@.take(i as int)),
        decreases v@.len() - i,
    {
        let ghost r0 = r@;
        r.push(string_of(v[i].as_slice()));
        proof {
            lemma_char_views_push(v@.take(i as int), v@[i as int]);
            assert(v@.take(i + 1) =~= v@.take(i as int).push(v@[i as int]));
            assert(r@.map_values(|p: String| p@) =~= r0.map_values(|p: String| p@).push(r@.last()@));
        }
        i = i + 1;
    }
    assert(v@.take(v@.len() as int) =~= v@);
    r
}

} // verus!
