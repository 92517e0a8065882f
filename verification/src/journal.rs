//! Account names and their colon-separated hierarchy.

use vstd::prelude::*;

use crate::text::{chars_of, string_of};

verus! {

/// The account separator, `:`.
pub open spec fn is_sep(c: char) -> bool {
    c == ':'
}

/// The prefixes of `s` that end right before a separator, shortest first:
/// for `A:B:C` these are `A` and `A:B`.
pub open spec fn parent_prefixes(s: Seq<char>) -> Seq<Seq<char>>
    decreases s.len(),
{
    if s.len() == 0 {
        Seq::empty()
    } else {
        let p = parent_prefixes(s.drop_last());
        if is_sep(s.last()) {
            p.push(s.drop_last())
        } else {
            p
        }
    }
}

/// The parts of `s` between separators, in order; `A:B:C` gives `A`, `B`,
/// `C`, and a name without separator gives itself.
pub open spec fn split_parts_spec(s: Seq<char>) -> Seq<Seq<char>>
    decreases s.len(),
{
    if s.len() == 0 {
        seq![Seq::<char>::empty()]
    } else {
        let p = split_parts_spec(s.drop_last());
        if is_sep(s.last()) {
            p.push(Seq::empty())
        } else {
            p.update(p.len() - 1, p.last().push(s.last()))
        }
    }
}

/// The parts joined back with the separator between consecutive parts.
pub open spec fn join_parts(parts: Seq<Seq<char>>) -> Seq<char>
    decreases parts.len(),
{
    if parts.len() == 0 {
        Seq::empty()
    } else if parts.len() == 1 {
        parts[0]
    } else {
        join_parts(parts.drop_last()) + seq![':'] + parts.last()
    }
}

/// The position of the first separator in `s`, if any.
pub open spec fn first_sep(s: Seq<char>) -> Option<int> {
    if exists|i: int| 0 <= i < s.len() && is_sep(s[i]) {
        Some(choose|i: int| 0 <= i < s.len() && is_sep(s[i]) && forall|j: int| 0 <= j < i ==> !is_sep(s[j]))
    } else {
        None
    }
}

/// `i` is the position of the first separator of `s`.
pub open spec fn is_first_sep(s: Seq<char>, i: int) -> bool {
    &&& 0 <= i < s.len()
    &&& is_sep(s[i])
    &&& forall|j: int| 0 <= j < i ==> !is_sep(s[j])
}

/// `s` holds no separator.
pub open spec fn no_sep(s: Seq<char>) -> bool {
    forall|j: int| 0 <= j < s.len() ==> !is_sep(s[j])
}

/// `a` followed by the separator and `b`, or `b` alone when `a` is empty.
pub open spec fn append_spec(a: Seq<char>, b: Seq<char>) -> Seq<char> {
    if a.len() == 0 {
        b
    } else {
        a + seq![':'] + b
    }
}


/// Collects the prefixes of `cs` that end right before a separator.
fn prefixes_before_sep(cs: &Vec<char>) -> (r: Vec<String>)
    ensures
        r@.map_values(|x: String| x@) == parent_prefixes(cs@),
{
    let mut r: Vec<String> = Vec::new();
    let mut i: usize = 0;
    while i < cs.len()
        invariant
            i <= cs@.len(),
            r@.map_values(|x: String| x@) == parent_prefixes(cs@.take(i as int)),
        decreases cs@.len() - i,
    {
        assert(cs@.take(i + 1).drop_last() =~= cs@.take(i as int));
        if cs[i] == ':' {
            let p = string_of(&cs.as_slice()[0..i]);
            proof {
                assert(cs@.subrange(0, i as int) =~= cs@.take(i as int));
            }
            let ghost before = r@;
            r.push(p);
            assert(r@.map_values(|x: String| x@) =~= before.map_values(|x: String| x@).push(
                cs@.take(i as int),
            ));
        }
        i = i + 1;
    }
    assert(cs@.take(cs@.len() as int) =~= cs@);
    r
}

/// Splits `cs` at every separator.
pub(crate) fn split_at_seps(cs: &Vec<char>) -> (r: Vec<String>)
    ensures
        r@.map_values(|x: String| x@) == split_parts_spec(cs@),
{
    let mut r: Vec<String> = Vec::new();
    let mut start: usize = 0;
    let mut i: usize = 0;
    assert(cs@.take(0) =~= Seq::<char>::empty());
    assert(r@.map_values(|x: String| x@) =~= Seq::<Seq<char>>::empty());
    assert(cs@.subrange(0, 0) =~= Seq::<char>::empty());
    while i < cs.len()
        invariant
            start <= i <= cs@.len(),
            split_parts_spec(cs@.take(i as int)) == r@.map_values(|x: String| x@).push(
                cs@.subrange(start as int, i as int),
            ),
        decreases cs@.len() - i,
    {
        assert(cs@.take(i + 1).drop_last() =~= cs@.take(i as int));
        assert(cs@.take(i + 1).last() == cs@[i as int]);
        let ghost before = r@.map_values(|x: String| x@);
        if cs[i] == ':' {
            let p = string_of(&cs.as_slice()[start..i]);
            r.push(p);
            assert(r@.map_values(|x: String| x@) =~= before.push(cs@.subrange(start as int, i as int)));
            start = i + 1;
            assert(cs@.subrange(start as int, i + 1) =~= Seq::<char>::empty());
        } else {
            assert(cs@.subrange(start as int, i + 1) =~= cs@.subrange(start as int, i as int).push(
                cs@[i as int],
            ));
            let ghost p = before.push(cs@.subrange(start as int, i as int));
            assert(p.update(p.len() - 1, p.last().push(cs@[i as int])) =~= before.push(
                cs@.subrange(start as int, i + 1),
            ));
        }
        i = i + 1;
    }
    let last = string_of(&cs.as_slice()[start..cs.len()]);
    r.push(last);
    assert(cs@.take(cs@.len() as int) =~= cs@);
    r
}

/// Position of the first separator in `cs`, if any.
fn find_sep(cs: &Vec<char>) -> (r: Option<usize>)
    ensures
        r matches Some(i) ==> is_first_sep(cs@, i as int),
        r is None ==> no_sep(cs@),
{
    let mut i: usize = 0;
    while i < cs.len()
        invariant
            i <= cs@.len(),
            forall|j: int| 0 <= j < i ==> !is_sep(cs@[j]),
        decreases cs@.len() - i,
    {
        if cs[i] == ':' {
            return Some(i);
        }
        i = i + 1;
    }
    None
}

/// The name of an account.
///
/// Account names use a colon-separated hierarchy to represent account
/// structure, as in `Assets:Bank:Checking` and `Assets:Cash`.
#[derive(Clone, PartialEq, Eq, Hash, PartialOrd, Ord, Default, Debug)]
pub struct AccName(String);

impl View for AccName {
    type V = Seq<char>;

    closed spec fn view(&self) -> Seq<char> {
        self.0@
    }
}

impl AccName {
    /// The account named `s`.
    pub fn new(s: &str) -> (r: AccName)
        ensures
            r@ == s@,
    {
        AccName(s.to_owned())
    }

    /// The account whose name is the given string.
    pub fn from_string(s: String) -> (r: AccName)
        ensures
            r@ == s@,
    {
        AccName(s)
    }

    /// The name as a string slice.
    pub fn as_str(&self) -> (r: &str)
        ensures
            r@ == self@,
    {
        self.0.as_str()
    }

    /// A second name equal to this one.
    pub fn duplicate(&self) -> (r: AccName)
        ensures
            r@ == self@,
    {
        AccName(self.0.clone())
    }

    /// Whether two names are the same.
    pub fn same(&self, o: &AccName) -> (r: bool)
        ensures
            r == (self@ == o@),
    {
        self.0 == o.0
    }

    /// Whether this name comes before `o` in string order.
    pub fn lt(&self, o: &AccName) -> (r: bool)
        ensures
            r == crate::catalog::seq_lt(self@, o@),
    {
        let a = chars_of(self.0.as_str());
        let b = chars_of(o.0.as_str());
        crate::catalog::lt_chars(&a, &b)
    }

    /// True for the empty name.
    pub fn is_empty(&self) -> (r: bool)
        ensures
            r == (self@.len() == 0),
    {
        self.0.as_str().is_empty()
    }

    /// All the accounts of the hierarchy down to this one: every parent
    /// account, shortest first, then the full name.
    /// `Assets:Bank:Checking` gives `Assets`, `Assets:Bank`,
    /// `Assets:Bank:Checking`.
    pub fn all_accounts(&self) -> (r: Vec<String>)
        ensures
            r@.map_values(|x: String| x@) == parent_prefixes(self@).push(self@),
    {
        let cs = chars_of(self.0.as_str());
        let mut r = prefixes_before_sep(&cs);
        let ghost before = r@;
        r.push(self.0.clone());
        assert(r@.map_values(|x: String| x@) =~= before.map_values(|x: String| x@).push(self@));
        r
    }

    /// Like `all_accounts`, without the full name itself.
    pub fn parent_accounts(&self) -> (r: Vec<String>)
        ensures
            r@.map_values(|x: String| x@) == parent_prefixes(self@),
    {
        let cs = chars_of(self.0.as_str());
        prefixes_before_sep(&cs)
    }

    /// The root account of the hierarchy: the part before the first
    /// separator, or `None` when the name has no separator.
    pub fn parent_account(&self) -> (r: Option<String>)
        ensures
            r is None <==> no_sep(self@),
            r matches Some(p) ==> exists|i: int| is_first_sep(self@, i) && p@ == self@.take(i),
    {
        let cs = chars_of(self.0.as_str());
        match find_sep(&cs) {
            Some(i) => {
                let p = string_of(&cs.as_slice()[0..i]);
                assert(cs@.subrange(0, i as int) =~= cs@.take(i as int));
                assert(is_first_sep(self@, i as int));
                Some(p)
            },
            None => None,
        }
    }

    /// The parts of the name between separators.
    pub fn split_parts(&self) -> (r: Vec<String>)
        ensures
            r@.map_values(|x: String| x@) == split_parts_spec(self@),
    {
        let cs = chars_of(self.0.as_str());
        split_at_seps(&cs)
    }

    /// This name followed by `:` and `sub`; just `sub` when this name is
    /// empty.
    pub fn append(&self, sub: &AccName) -> (r: AccName)
        ensures
            r@ == append_spec(self@, sub@),
    {
        if self.is_empty() {
            AccName(sub.0.clone())
        } else {
            let mut cs = chars_of(self.0.as_str());
            cs.push(':');
            let mut tail = chars_of(sub.0.as_str());
            cs.append(&mut tail);
            AccName(string_of(cs.as_slice()))
        }
    }

    /// Removes the root account from the name and returns it.
    ///
    /// `parent:child:grandchild` gives `parent` and leaves
    /// `child:grandchild`; a name without separator (the empty name
    /// included) gives `None` and stays as it was.
    pub fn pop_parent_account(&mut self) -> (r: Option<AccName>)
        ensures
            !(exists|i: int| is_first_sep(old(self)@, i)) ==> r is None && final(self)@ == old(self)@,
            (exists|i: int| is_first_sep(old(self)@, i)) ==> r is Some,
            r matches Some(p) ==> exists|i: int|
                is_first_sep(old(self)@, i) && p@ == old(self)@.take(i) && final(self)@ == old(
                    self,
                )@.skip(i + 1),
    {
        let cs = chars_of(self.0.as_str());
        let n = cs.len();
        match find_sep(&cs) {
            Some(i) => {
                let pop = string_of(&cs.as_slice()[0..i]);
                let rest = string_of(&cs.as_slice()[i + 1..n]);
                assert(cs@.subrange(0, i as int) =~= cs@.take(i as int));
                assert(cs@.subrange(i + 1, cs@.len() as int) =~= cs@.skip(i + 1));
                self.0 = rest;
                let r = AccName(pop);
                assert(is_first_sep(old(self)@, i as int) && r@ == old(self)@.take(i as int) && self@ == old(
                    self,
                )@.skip(i + 1));
                Some(r)
            },
            None => {
                assert forall|i: int| !is_first_sep(old(self)@, i) by {
                    if is_first_sep(old(self)@, i) {
                        assert(is_sep(cs@[i]));
                    }
                }
                None
            },
        }
    }
}

/// Splitting a name at its separators and joining the parts back with the
/// separator gives the name again, and no part holds a separator.
pub proof fn lemma_split_join(s: Seq<char>)
    ensures
        join_parts(split_parts_spec(s)) == s,
        forall|k: int| 0 <= k < split_parts_spec(s).len() ==> no_sep(#[trigger] split_parts_spec(s)[k]),
        split_parts_spec(s).len() >= 1,
    decreases s.len(),
{
    if s.len() > 0 {
        let t = s.drop_last();
        lemma_split_join(t);
        let p = split_parts_spec(t);
        if is_sep(s.last()) {
            let q = p.push(Seq::<char>::empty());
            assert(q.drop_last() =~= p);
            assert(join_parts(q) =~= join_parts(p) + seq![':'] + Seq::<char>::empty());
            assert(t.push(s.last()) =~= s);
        } else {
            let q = p.update(p.len() - 1, p.last().push(s.last()));
            assert forall|k: int| 0 <= k < q.len() implies no_sep(#[trigger] q[k]) by {
                if k == q.len() - 1 {
                    assert(no_sep(p[k]));
                }
            }
            if p.len() == 1 {
                assert(join_parts(q) =~= s);
            } else {
                assert(q.drop_last() =~= p.drop_last());
                assert(join_parts(p) == join_parts(p.drop_last()) + seq![':'] + p.last());
                assert(join_parts(q) =~= join_parts(p) + seq![s.last()]);
                assert(t.push(s.last()) =~= s);
            }
        }
    }
}

/// The full list of accounts is the list of parent accounts followed by
/// the name itself, and every parent account is a proper prefix of the
/// name that ends right before a separator.
pub proof fn lemma_parent_prefixes(s: Seq<char>)
    ensures
        forall|k: int| 0 <= k < parent_prefixes(s).len() ==> {
            let p = #[trigger] parent_prefixes(s)[k];
            &&& p.len() < s.len()
            &&& p == s.take(p.len() as int)
            &&& is_sep(s[p.len() as int])
        },
    decreases s.len(),
{
    if s.len() > 0 {
        let t = s.drop_last();
        lemma_parent_prefixes(t);
        let pp = parent_prefixes(s);
        assert forall|k: int| 0 <= k < pp.len() implies {
            let p = #[trigger] pp[k];
            &&& p.len() < s.len()
            &&& p == s.take(p.len() as int)
            &&& is_sep(s[p.len() as int])
        } by {
            if k < parent_prefixes(t).len() {
                let p = parent_prefixes(t)[k];
                assert(t.take(p.len() as int) =~= s.take(p.len() as int));
            } else {
                assert(t =~= s.take(t.len() as int));
            }
        }
    }
}

/// Removing the root account and putting it back with the separator
/// restores the name.
pub proof fn lemma_pop_parent_restores(s: Seq<char>, i: int)
    requires
        is_first_sep(s, i),
    ensures
        append_spec(s.take(i), s.skip(i + 1)) == s || (i == 0 && s.take(i).len() == 0),
        i > 0 ==> s.take(i) + seq![':'] + s.skip(i + 1) == s,
{
    if i > 0 {
        assert(s.take(i) + seq![':'] + s.skip(i + 1) =~= s);
    }
}

/// The name of an account, as used by the earlier reports: the same
/// hierarchy as `AccName`, except that `parent_account` of a name without
/// separator is the name itself.
#[derive(Clone, PartialEq, Eq, Hash, PartialOrd, Ord, Default, Debug)]
pub struct AccountName(String);

impl View for AccountName {
    type V = Seq<char>;

    closed spec fn view(&self) -> Seq<char> {
        self.0@
    }
}

impl AccountName {
    /// The account named `s`.
    pub fn new(s: &str) -> (r: AccountName)
        ensures
            r@ == s@,
    {
        AccountName(s.to_owned())
    }

    /// The name as a string slice.
    pub fn as_str(&self) -> (r: &str)
        ensures
            r@ == self@,
    {
        self.0.as_str()
    }

    /// True for the empty name.
    pub fn is_empty(&self) -> (r: bool)
        ensures
            r == (self@.len() == 0),
    {
        self.0.as_str().is_empty()
    }

    /// Every parent account, shortest first, then the full name.
    pub fn all_accounts(&self) -> (r: Vec<String>)
        ensures
            r@.map_values(|x: String| x@) == parent_prefixes(self@).push(self@),
    {
        let cs = chars_of(self.0.as_str());
        let mut r = prefixes_before_sep(&cs);
        let ghost before = r@;
        r.push(self.0.clone());
        assert(r@.map_values(|x: String| x@) =~= before.map_values(|x: String| x@).push(self@));
        r
    }

    /// Every parent account, shortest first.
    pub fn parent_accounts(&self) -> (r: Vec<String>)
        ensures
            r@.map_values(|x: String| x@) == parent_prefixes(self@),
    {
        let cs = chars_of(self.0.as_str());
        prefixes_before_sep(&cs)
    }

    /// The part before the first separator, or the whole name when it
    /// has none.
    pub fn parent_account(&self) -> (r: String)
        ensures
            no_sep(self@) ==> r@ == self@,
            !no_sep(self@) ==> exists|i: int| is_first_sep(self@, i) && r@ == self@.take(i),
    {
        let cs = chars_of(self.0.as_str());
        match find_sep(&cs) {
            Some(i) => {
                let p = string_of(&cs.as_slice()[0..i]);
                assert(cs@.subrange(0, i as int) =~= cs@.take(i as int));
                p
            },
            None => self.0.clone(),
        }
    }

    /// The parts of the name between separators.
    pub fn split_parts(&self) -> (r: Vec<String>)
        ensures
            r@.map_values(|x: String| x@) == split_parts_spec(self@),
    {
        let cs = chars_of(self.0.as_str());
        split_at_seps(&cs)
    }

    /// This name followed by `:` and `sub`; just `sub` when this name is
    /// empty.
    pub fn append(&self, sub: &AccountName) -> (r: AccountName)
        ensures
            r@ == append_spec(self@, sub@),
    {
        if self.is_empty() {
            AccountName(sub.0.clone())
        } else {
            let mut cs = chars_of(self.0.as_str());
            cs.push(':');
            let mut tail = chars_of(sub.0.as_str());
            cs.append(&mut tail);
            AccountName(string_of(cs.as_slice()))
        }
    }
}

} // verus!
