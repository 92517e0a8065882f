//! The ledger: the postings of a journal grouped by account; accounts and
//! their balances as of a date; account queries.

use vstd::prelude::*;

use crate::journal::AccName;
use crate::misc::BetweenDate;
use crate::xact::{Journal, Posting, Xact};

verus! {

/// Whether `pat` is a regular expression that `regex` accepts (its syntax,
/// and the default size limit of the compiled expression).
pub uninterp spec fn regex_compiles(pat: Seq<char>) -> bool;

/// Whether the regular expression `pat` matches anywhere in `hay`, as
/// `regex` decides it.
pub uninterp spec fn regex_matches(pat: Seq<char>, hay: Seq<char>) -> bool;

/// `regex::Regex::new`, asked only whether it succeeds. Claims: the answer
/// is the named acceptance of the pattern.
#[verifier::external_body]
pub(crate) fn regex_check(pat: &str) -> (r: bool)
    ensures
        r == regex_compiles(pat@),
{
    regex::Regex::new(pat).is_ok()
}

/// `regex::Regex::is_match` on the expression that `regex::Regex::new`
/// compiles from `pat`, which it accepts. Claims: the answer is the named
/// match of the pattern in `hay`.
#[verifier::external_body]
pub(crate) fn regex_find(pat: &str, hay: &str) -> (r: bool)
    requires
        regex_compiles(pat@),
    ensures
        r == regex_matches(pat@, hay@),
{
    match regex::Regex::new(pat) {
        Ok(re) => re.is_match(hay),
        Err(_) => false,
    }
}

/// A query on account names: regular expressions, any of which may match
/// anywhere in a name; no expression at all matches every name.
pub struct Query {
    pats: Vec<String>,
}

impl Query {
    /// The patterns of the query.
    pub closed spec fn patterns(&self) -> Seq<Seq<char>> {
        self.pats@.map_values(|p: String| p@)
    }

    #[verifier::type_invariant]
    closed spec fn inv(&self) -> bool {
        forall|i: int| 0 <= i < self.pats@.len() ==> regex_compiles(#[trigger] self.pats@[i]@)
    }

    /// Whether the query matches `name`: it has no pattern, or one of its
    /// patterns matches somewhere in the name.
    pub open spec fn matches_spec(&self, name: Seq<char>) -> bool {
        self.patterns().len() == 0 || exists|i: int|
            0 <= i < self.patterns().len() && regex_matches(#[trigger] self.patterns()[i], name)
    }

    /// The query of the patterns `pats`; `None` where one of them is not
    /// an expression `regex` accepts.
    pub fn new(pats: Vec<String>) -> (r: Option<Query>)
        ensures
            r is Some <==> forall|i: int| 0 <= i < pats@.len() ==> regex_compiles(#[trigger] pats@[i]@),
            r matches Some(q) ==> q.patterns() == pats@.map_values(|p: String| p@),
    {
        let mut i: usize = 0;
        while i < pats.len()
            invariant
                i <= pats@.len(),
                forall|j: int| 0 <= j < i ==> regex_compiles(#[trigger] pats@[j]@),
            decreases pats@.len() - i,
        {
            if !regex_check(pats[i].as_str()) {
                return None;
            }
            i = i + 1;
        }
        Some(Query { pats })
    }

    /// The query that matches every name.
    pub fn all() -> (r: Query)
        ensures
            r.patterns().len() == 0,
    {
        let r = Query { pats: Vec::new() };
        assert(r.patterns() =~= Seq::<Seq<char>>::empty());
        r
    }

    /// Whether the query has no pattern.
    pub fn is_empty(&self) -> (r: bool)
        ensures
            r == (self.patterns().len() == 0),
    {
        self.pats.len() == 0
    }

    /// Whether the query matches `name` (see `matches_spec`).
    pub fn is_match(&self, name: &str) -> (r: bool)
        ensures
            r == self.matches_spec(name@),
    {
        proof {
            use_type_invariant(self);
        }
        let ghost ps = self.patterns();
        if self.pats.len() == 0 {
            return true;
        }
        let mut i: usize = 0;
        while i < self.pats.len()
            invariant
                i <= self.pats@.len(),
                ps == self.patterns(),
                ps.len() == self.pats@.len(),
                forall|j: int| 0 <= j < ps.len() ==> #[trigger] ps[j] == self.pats@[j]@,
                forall|j: int| 0 <= j < self.pats@.len() ==> regex_compiles(#[trigger] self.pats@[j]@),
                forall|j: int| 0 <= j < i ==> !regex_matches(#[trigger] ps[j], name@),
            decreases self.pats@.len() - i,
        {
            assert(ps[i as int] == self.pats@[i as int]@);
            if regex_find(self.pats[i].as_str(), name) {
                return true;
            }
            i = i + 1;
        }
        false
    }
}

/// A query without patterns matches every account name.
pub proof fn law_query_without_patterns(q: Query, name: Seq<char>)
    requires
        q.patterns().len() == 0,
    ensures
        q.matches_spec(name),
{
}

/// The postings of the transactions `xs`, transaction after transaction.
pub open spec fn all_postings(xs: Seq<Xact>) -> Seq<Posting>
    decreases xs.len(),
{
    if xs.len() == 0 {
        Seq::empty()
    } else {
        all_postings(xs.drop_last()) + xs.last().postings@
    }
}

/// The postings of `ps` to account `name`, in order.
pub open spec fn postings_to(ps: Seq<Posting>, name: Seq<char>) -> Seq<Posting>
    decreases ps.len(),
{
    if ps.len() == 0 {
        Seq::empty()
    } else if ps.last().acc_name@ == name {
        postings_to(ps.drop_last(), name).push(ps.last())
    } else {
        postings_to(ps.drop_last(), name)
    }
}

/// The postings of `ps` dated within `b`, in order.
pub open spec fn postings_within(ps: Seq<Posting>, b: BetweenDate) -> Seq<Posting>
    decreases ps.len(),
{
    if ps.len() == 0 {
        Seq::empty()
    } else if b.contains(ps.last().date) {
        postings_within(ps.drop_last(), b).push(ps.last())
    } else {
        postings_within(ps.drop_last(), b)
    }
}

/// No two groups have the same account name.
pub open spec fn names_distinct(v: Seq<(Seq<char>, Seq<Posting>)>) -> bool {
    forall|i: int, j: int| 0 <= i < j < v.len() ==> (#[trigger] v[i]).0 != (#[trigger] v[j]).0
}

/// `v` groups the postings `ps` by account: one group per account name
/// that a posting has, with the postings to that account, in order.
pub open spec fn groups_of(v: Seq<(Seq<char>, Seq<Posting>)>, ps: Seq<Posting>) -> bool {
    &&& names_distinct(v)
    &&& forall|i: int| 0 <= i < v.len() ==> (#[trigger] v[i]).1 == postings_to(ps, v[i].0)
    &&& forall|name: Seq<char>|
        (exists|i: int| 0 <= i < v.len() && (#[trigger] v[i]).0 == name) <==> #[trigger] postings_to(ps, name).len() > 0
}

/// The postings of a journal grouped by account.
pub struct Ledger<'l> {
    acc_posting: Vec<(AccName, Vec<&'l Posting>)>,
}

/// The postings behind the references.
pub open spec fn derefs(v: Seq<&Posting>) -> Seq<Posting> {
    v.map_values(|p: &Posting| *p)
}

impl<'l> View for Ledger<'l> {
    type V = Seq<(Seq<char>, Seq<Posting>)>;

    closed spec fn view(&self) -> Seq<(Seq<char>, Seq<Posting>)> {
        self.acc_posting@.map_values(|e: (AccName, Vec<&'l Posting>)| (e.0@, derefs(e.1@)))
    }
}

impl<'l> Ledger<'l> {
    #[verifier::type_invariant]
    closed spec fn inv(&self) -> bool {
        names_distinct(self@)
    }

    /// Adds `p` to the group of its account, a new group where there is
    /// none.
    fn record(&mut self, p: &'l Posting)
        ensures
            forall|ps: Seq<Posting>| groups_of(old(self)@, ps) ==> groups_of(final(self)@, ps.push(*p)),
    {
        proof {
            use_type_invariant(&*self);
        }
        let ghost v = self@;
        let mut i: usize = 0;
        while i < self.acc_posting.len() && !self.acc_posting[i].0.same(&p.acc_name)
            invariant
                i <= self.acc_posting@.len(),
                v == self@,
                v.len() == self.acc_posting@.len(),
                forall|j: int| 0 <= j < v.len() ==> #[trigger] v[j] == (self.acc_posting@[j].0@, derefs(self.acc_posting@[j].1@)),
                forall|j: int| 0 <= j < i ==> v[j].0 != p.acc_name@,
            decreases self.acc_posting@.len() - i,
        {
            assert(v[i as int].0 == self.acc_posting@[i as int].0@);
            i = i + 1;
        }
        let mut entries = Vec::new();
        std::mem::swap(&mut entries, &mut self.acc_posting);
        let ghost nv: Seq<(Seq<char>, Seq<Posting>)>;
        if i < entries.len() {
            let (name, mut ps) = entries.remove(i);
            let ghost before = ps@;
            ps.push(p);
            assert(derefs(ps@) =~= derefs(before).push(*p));
            entries.insert(i, (name, ps));
            proof {
                nv = v.update(i as int, (v[i as int].0, v[i as int].1.push(*p)));
                assert(entries@.map_values(|e: (AccName, Vec<&'l Posting>)| (e.0@, derefs(e.1@))) =~= nv);
            }
        } else {
            let mut ps: Vec<&'l Posting> = Vec::new();
            ps.push(p);
            assert(derefs(ps@) =~= seq![*p]);
            entries.push((p.acc_name.duplicate(), ps));
            proof {
                nv = v.push((p.acc_name@, seq![*p]));
                assert(entries@.map_values(|e: (AccName, Vec<&'l Posting>)| (e.0@, derefs(e.1@))) =~= nv);
            }
        }
        proof {
            assert(names_distinct(nv)) by {
                assert forall|a: int, b: int| 0 <= a < b < nv.len() implies (#[trigger] nv[a]).0 != (#[trigger] nv[b]).0 by {
                    if b < v.len() {
                        assert(v[a].0 != v[b].0);
                    }
                }
            }
            assert forall|ps: Seq<Posting>| groups_of(v, ps) implies groups_of(nv, ps.push(*p)) by {
                let qs = ps.push(*p);
                assert(qs.drop_last() =~= ps);
                assert forall|j: int| 0 <= j < nv.len() implies (#[trigger] nv[j]).1 == postings_to(qs, nv[j].0) by {
                    if j < v.len() {
                        assert(v[j].1 == postings_to(ps, v[j].0));
                    } else {
                        assert(!(exists|k: int| 0 <= k < v.len() && v[k].0 == p.acc_name@));
                        assert(postings_to(ps, p.acc_name@).len() == 0);
                        assert(postings_to(ps, p.acc_name@) =~= Seq::<Posting>::empty());
                    }
                }
                assert forall|name: Seq<char>|
                    (exists|k: int| 0 <= k < nv.len() && (#[trigger] nv[k]).0 == name) <==> #[trigger] postings_to(qs, name).len() > 0 by {
                    if name == p.acc_name@ {
                        if i < v.len() {
                            assert(nv[i as int].0 == name);
                        } else {
                            assert(nv[v.len() as int].0 == name);
                        }
                    } else {
                        assert(postings_to(qs, name) == postings_to(ps, name));
                        if exists|k: int| 0 <= k < nv.len() && nv[k].0 == name {
                            let k = choose|k: int| 0 <= k < nv.len() && nv[k].0 == name;
                            assert(k < v.len());
                            assert(v[k].0 == name);
                        }
                        if postings_to(ps, name).len() > 0 {
                            let k = choose|k: int| 0 <= k < v.len() && v[k].0 == name;
                            assert(nv[k].0 == name);
                        }
                    }
                }
            }
        }
        self.acc_posting = entries;
    }

    /// The ledger of the journal: its postings grouped by account (see
    /// `groups_of`).
    pub fn from_journal(journal: &'l Journal) -> (r: Ledger<'l>)
        ensures
            groups_of(r@, all_postings(journal.xacts_spec())),
    {
        let xs = journal.xacts();
        let ghost xv = xs@;
        let mut ledger = Ledger { acc_posting: Vec::new() };
        assert(ledger@ =~= Seq::<(Seq<char>, Seq<Posting>)>::empty());
        assert(xv.take(0) =~= Seq::<Xact>::empty());
        assert forall|name: Seq<char>| #[trigger] postings_to(Seq::<Posting>::empty(), name).len() == 0 by {
        }
        let mut i: usize = 0;
        while i < xs.len()
            invariant
                i <= xv.len(),
                xv == xs@,
                xv == journal.xacts_spec(),
                groups_of(ledger@, all_postings(xv.take(i as int))),
            decreases xv.len() - i,
        {
            let x = &xs[i];
            let ghost base = all_postings(xv.take(i as int));
            let mut k: usize = 0;
            assert(x.postings@.take(0) =~= Seq::<Posting>::empty());
            assert(base + x.postings@.take(0) =~= base);
            while k < x.postings.len()
                invariant
                    k <= x.postings@.len(),
                    groups_of(ledger@, base + x.postings@.take(k as int)),
                decreases x.postings@.len() - k,
            {
                let p = &x.postings[k];
                ledger.record(p);
                assert(base + x.postings@.take(k + 1) =~= (base + x.postings@.take(k as int)).push(*p));
                k = k + 1;
            }
            proof {
                assert(x.postings@.take(k as int) =~= x.postings@);
                assert(xv.take(i + 1).drop_last() =~= xv.take(i as int));
                assert(xv.take(i + 1).last() == *x);
            }
            i = i + 1;
        }
        assert(xv.take(xv.len() as int) =~= xv);
        ledger
    }
}

impl<'l> Ledger<'l> {
    /// The ledger with, in each group, only the postings dated within the
    /// range from `from` to `to` (both included when given); every
    /// account stays.
    pub fn filter_by_date(&self, from: Option<crate::date::Date>, to: Option<crate::date::Date>) -> (r: Ledger<'l>)
        ensures
            r@ == self@.map_values(
                |e: (Seq<char>, Seq<Posting>)| (e.0, postings_within(e.1, BetweenDate::with_bounds(from, to))),
            ),
    {
        proof {
            use_type_invariant(self);
        }
        let between = BetweenDate::new(from, to);
        let ghost v = self@;
        let mut out: Vec<(AccName, Vec<&'l Posting>)> = Vec::new();
        let mut i: usize = 0;
        while i < self.acc_posting.len()
            invariant
                i <= self.acc_posting@.len(),
                v == self@,
                v.len() == self.acc_posting@.len(),
                between == BetweenDate::with_bounds(from, to),
                forall|j: int| 0 <= j < v.len() ==> #[trigger] v[j] == (self.acc_posting@[j].0@, derefs(self.acc_posting@[j].1@)),
                out@.len() == i,
                forall|j: int| 0 <= j < i ==> (#[trigger] out@[j]).0@ == v[j].0 && derefs(out@[j].1@) == postings_within(v[j].1, between),
            decreases self.acc_posting@.len() - i,
        {
            let ps = &self.acc_posting[i].1;
            let ghost pv = derefs(ps@);
            assert(v[i as int].1 == pv);
            let mut kept: Vec<&'l Posting> = Vec::new();
            let mut k: usize = 0;
            assert(pv.take(0) =~= Seq::<Posting>::empty());
            assert(derefs(kept@) =~= Seq::<Posting>::empty());
            while k < ps.len()
                invariant
                    k <= ps@.len(),
                    pv == derefs(ps@),
                    pv.len() == ps@.len(),
                    derefs(kept@) == postings_within(pv.take(k as int), between),
                decreases ps@.len() - k,
            {
                let q: &'l Posting = ps[k];
                assert(pv[k as int] == *q);
                assert(pv.take(k + 1).drop_last() =~= pv.take(k as int));
                assert(pv.take(k + 1).last() == *q);
                if between.check(q.date) {
                    let ghost before = kept@;
                    kept.push(q);
                    assert(derefs(kept@) =~= derefs(before).push(*q));
                }
                k = k + 1;
            }
            assert(pv.take(k as int) =~= pv);
            out.push((self.acc_posting[i].0.duplicate(), kept));
            i = i + 1;
        }
        let ghost ov = out@.map_values(|e: (AccName, Vec<&'l Posting>)| (e.0@, derefs(e.1@)));
        assert(ov =~= v.map_values(
            |e: (Seq<char>, Seq<Posting>)| (e.0, postings_within(e.1, BetweenDate::with_bounds(from, to))),
        ));
        assert forall|a: int, b: int| 0 <= a < b < ov.len() implies (#[trigger] ov[a]).0 != (#[trigger] ov[b]).0 by {
            assert(v[a].0 != v[b].0);
        }
        Ledger { acc_posting: out }
    }

    /// The postings of account `name`, if it has a group.
    pub fn get_acc_postings(&self, name: &AccName) -> (r: Option<&Vec<&'l Posting>>)
        ensures
            r is Some <==> exists|i: int| 0 <= i < self@.len() && (#[trigger] self@[i]).0 == name@,
            r matches Some(ps) ==> exists|i: int|
                0 <= i < self@.len() && (#[trigger] self@[i]).0 == name@ && self@[i].1 == derefs(ps@),
    {
        let ghost v = self@;
        let mut i: usize = 0;
        while i < self.acc_posting.len()
            invariant
                i <= self.acc_posting@.len(),
                v == self@,
                v.len() == self.acc_posting@.len(),
                forall|j: int| 0 <= j < v.len() ==> #[trigger] v[j] == (self.acc_posting@[j].0@, derefs(self.acc_posting@[j].1@)),
                forall|j: int| 0 <= j < i ==> (#[trigger] v[j]).0 != name@,
            decreases self.acc_posting@.len() - i,
        {
            assert(v[i as int] == (self.acc_posting@[i as int].0@, derefs(self.acc_posting@[i as int].1@)));
            if self.acc_posting[i].0.same(name) {
                return Some(&self.acc_posting[i].1);
            }
            i = i + 1;
        }
        None
    }

    /// All the groups: each account name with its postings.
    pub fn get_all_posting(&self) -> (r: &Vec<(AccName, Vec<&'l Posting>)>)
        ensures
            r@.map_values(|e: (AccName, Vec<&'l Posting>)| (e.0@, derefs(e.1@))) == self@,
            names_distinct(self@),
    {
        proof {
            use_type_invariant(self);
        }
        &self.acc_posting
    }
}

impl<'l> Ledger<'l> {
    /// The postings of one transaction grouped by account (see
    /// `groups_of`).
    pub fn from_xact(x: &'l Xact) -> (r: Ledger<'l>)
        ensures
            groups_of(r@, x.postings@),
    {
        let mut ledger = Ledger { acc_posting: Vec::new() };
        assert(ledger@ =~= Seq::<(Seq<char>, Seq<Posting>)>::empty());
        assert forall|name: Seq<char>| #[trigger] postings_to(Seq::<Posting>::empty(), name).len() == 0 by {
        }
        let mut k: usize = 0;
        assert(x.postings@.take(0) =~= Seq::<Posting>::empty());
        while k < x.postings.len()
            invariant
                k <= x.postings@.len(),
                groups_of(ledger@, x.postings@.take(k as int)),
            decreases x.postings@.len() - k,
        {
            let p = &x.postings[k];
            ledger.record(p);
            assert(x.postings@.take(k + 1) =~= x.postings@.take(k as int).push(*p));
            k = k + 1;
        }
        assert(x.postings@.take(k as int) =~= x.postings@);
        ledger
    }
}


impl<'l> Ledger<'l> {
    /// The groups, each account name with its postings, taken out of the
    /// ledger.
    pub fn into_groups(self) -> (r: Vec<(AccName, Vec<&'l Posting>)>)
        ensures
            r@.map_values(|e: (AccName, Vec<&'l Posting>)| (e.0@, derefs(e.1@))) == self@,
            names_distinct(self@),
    {
        proof {
            use_type_invariant(&self);
        }
        self.acc_posting
    }
}

impl Xact {
    /// The postings of the transaction grouped by account (see
    /// `groups_of`).
    pub fn get_all_postings<'a>(&'a self) -> (r: Vec<(AccName, Vec<&'a Posting>)>)
        ensures
            groups_of(r@.map_values(|e: (AccName, Vec<&'a Posting>)| (e.0@, derefs(e.1@))), self.postings@),
    {
        Ledger::from_xact(self).into_groups()
    }
}

} // verus!
