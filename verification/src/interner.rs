//! String interning: each distinct string is stored once and named by
//! a stable index.

use vstd::prelude::*;

verus! {

/// Stores each interned string once, in the order it was first seen.
/// The index of a string is its position in that order.
pub struct Interner {
    vec: Vec<String>,
}

/// No string occurs twice among the interned strings.
pub open spec fn all_distinct(s: Seq<Seq<char>>) -> bool {
    forall|i: int, j: int| 0 <= i < j < s.len() ==> s[i] != s[j]
}

/// What interning `s` does to the interned strings `v`: the strings
/// afterwards and the index of `s` among them. A string seen before keeps
/// its index; a new one is appended.
pub open spec fn interned(v: Seq<Seq<char>>, s: Seq<char>) -> (Seq<Seq<char>>, int) {
    if v.contains(s) {
        (v, choose|i: int| 0 <= i < v.len() && v[i] == s)
    } else {
        (v.push(s), v.len() as int)
    }
}

/// Interning keeps the strings distinct and gives back, for every later
/// interning of the same string, the same index with nothing changed;
/// two strings get the same index exactly when they are equal.
pub proof fn law_intern(v: Seq<Seq<char>>, a: Seq<char>, b: Seq<char>)
    requires
        all_distinct(v),
    ensures
        ({
            let (v1, ia) = interned(v, a);
            let (v2, ib) = interned(v1, b);
            &&& all_distinct(v1)
            &&& 0 <= ia < v1.len()
            &&& v1[ia] == a
            &&& interned(v1, a) == (v1, ia)
            &&& interned(v2, a).0 == v2
            &&& interned(v2, a).1 == ia
            &&& (ia == ib <==> a == b)
        }),
{
    lemma_interned(v, a);
    let (v1, ia) = interned(v, a);
    lemma_interned(v1, a);
    lemma_interned(v1, b);
    let (v2, ib) = interned(v1, b);
    lemma_interned(v2, a);
    assert(v2[ia] == v1[ia]) by {
        if !v1.contains(b) {
            assert(v2 == v1.push(b));
        }
    }
}

/// Interning into distinct strings: the result is distinct, holds the
/// string at its index, and extends the strings before.
proof fn lemma_interned(v: Seq<Seq<char>>, s: Seq<char>)
    requires
        all_distinct(v),
    ensures
        all_distinct(interned(v, s).0),
        0 <= interned(v, s).1 < interned(v, s).0.len(),
        interned(v, s).0[interned(v, s).1] == s,
        interned(v, s).0.len() >= v.len(),
        forall|k: int| 0 <= k < v.len() ==> #[trigger] interned(v, s).0[k] == v[k],
        forall|k: int| 0 <= k < v.len() && v[k] == s ==> interned(v, s).1 == k,
{
    if v.contains(s) {
        let i = choose|i: int| 0 <= i < v.len() && v[i] == s;
        assert forall|k: int| 0 <= k < v.len() && v[k] == s implies i == k by {
            if i < k {
                assert(v[i] != v[k]);
            } else if k < i {
                assert(v[k] != v[i]);
            }
        }
    } else {
        let w = v.push(s);
        assert forall|i: int, j: int| 0 <= i < j < w.len() implies w[i] != w[j] by {
            if j == v.len() {
                assert(w[i] == v[i]);
                assert(v.contains(v[i]));
            }
        }
    }
}

impl View for Interner {
    type V = Seq<Seq<char>>;

    closed spec fn view(&self) -> Seq<Seq<char>> {
        self.vec@.map_values(|s: String| s@)
    }
}

impl Interner {
    /// The interned strings are pairwise distinct.
    pub closed spec fn wf(&self) -> bool {
        all_distinct(self@)
    }

    /// Creates an interner that already holds the empty string, at
    /// index `0`. `cap` is a capacity hint.
    pub fn with_capacity(cap: usize) -> (r: Interner)
        ensures
            r.wf(),
            r@ == seq![Seq::<char>::empty()],
    {
        let mut vec: Vec<String> = Vec::with_capacity(cap);
        vec.push(String::new());
        let r = Interner { vec };
        assert(r@ =~= seq![Seq::<char>::empty()]);
        r
    }

    /// Returns the index of `name`, interning it first if it is new.
    ///
    /// A string seen before keeps its index and nothing changes; a new
    /// string is appended and gets the next free index.
    pub fn intern(&mut self, name: &str) -> (idx: usize)
        requires
            old(self).wf(),
            old(self)@.len() < usize::MAX,
        ensures
            final(self).wf(),
            idx < final(self)@.len(),
            final(self)@[idx as int] == name@,
            old(self)@.contains(name@) ==> final(self)@ == old(self)@,
            !old(self)@.contains(name@) ==> final(self)@ == old(self)@.push(name@) && idx
                == old(self)@.len(),
            (final(self)@, idx as int) == interned(old(self)@, name@),
    {
        let owned: String = name.to_owned();
        let mut i: usize = 0;
        while i < self.vec.len()
            invariant
                i <= self.vec@.len(),
                self@ == old(self)@,
                self.wf(),
                owned@ == name@,
                forall|j: int| 0 <= j < i ==> self@[j] != name@,
            decreases self.vec@.len() - i,
        {
            if self.vec[i] == owned {
                assert(self@[i as int] == name@);
                proof {
                    lemma_interned(old(self)@, name@);
                }
                return i;
            }
            i = i + 1;
        }
        let idx = self.vec.len();
        let ghost prev = self@;
        self.vec.push(owned);
        assert(self@ =~= prev.push(name@));
        assert(!prev.contains(name@)) by {
            if prev.contains(name@) {
                let k = choose|k: int| 0 <= k < prev.len() && prev[k] == name@;
                assert(self@[k] == name@);
            }
        }
        idx
    }

    /// The string interned at `idx`.
    pub fn name(&self, idx: usize) -> (r: &str)
        requires
            idx < self@.len(),
        ensures
            r@ == self@[idx as int],
    {
        self.vec[idx].as_str()
    }

    /// An interned string has exactly one index: so interning the same
    /// string twice gives the same index both times.
    pub proof fn lemma_index_unique(&self, i: int, j: int)
        requires
            self.wf(),
            0 <= i < self@.len(),
            0 <= j < self@.len(),
            self@[i] == self@[j],
        ensures
            i == j,
    {
    }
}

} // verus!
