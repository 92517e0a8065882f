//! Sequence adapters: a cursor that can look ahead several items and
//! step back, a pairing of each item with its successor, and a
//! head-and-tail selection.

use vstd::prelude::*;

verus! {

/// A cursor over a sequence that allows several consecutive peeks.
///
/// Each `peek` looks one item further ahead; `unpeek` steps the look-ahead
/// back by one; `next` consumes the first item and resets the look-ahead.
/// Items that were peeked form a buffer; `consume_peeked` drops that
/// buffer as if its items had been consumed.
pub struct MultiPeek<T> {
    items: Vec<T>,
    /// index of the first item not yet consumed
    pos: usize,
    /// number of items taken into the look-ahead buffer
    npeeked: usize,
    /// look-ahead position, at most `npeeked`
    cur: usize,
}

impl<T> MultiPeek<T> {
    /// The items not consumed yet.
    pub closed spec fn rest(&self) -> Seq<T> {
        self.items@.subrange(self.pos as int, self.items@.len() as int)
    }

    /// How many of the remaining items are in the look-ahead buffer.
    pub closed spec fn buffered(&self) -> nat {
        self.npeeked as nat
    }

    /// The look-ahead position: the next `peek` returns `rest()[cursor()]`.
    pub closed spec fn cursor(&self) -> nat {
        self.cur as nat
    }

    pub closed spec fn wf(&self) -> bool {
        &&& self.cur <= self.npeeked
        &&& self.pos + self.npeeked <= self.items@.len()
        &&& self.items@.len() <= usize::MAX
    }

    /// The look-ahead position lies within the buffer, and the buffer
    /// within the remaining items, whose number fits a `usize`.
    pub proof fn lemma_bounds(&self)
        requires
            self.wf(),
        ensures
            self.cursor() <= self.buffered() <= self.rest().len() <= usize::MAX,
    {
    }

    /// A cursor at the start of `items`, with nothing peeked.
    pub fn new(items: Vec<T>) -> (r: Self)
        ensures
            r.wf(),
            r.rest() == items@,
            r.buffered() == 0,
            r.cursor() == 0,
    {
        let _n = items.len();
        let r = MultiPeek { items, pos: 0, npeeked: 0, cur: 0 };
        assert(r.rest() =~= r.items@);
        r
    }

    /// Drops every peeked item, as if consumed, and resets the look-ahead.
    pub fn consume_peeked(&mut self)
        requires
            old(self).wf(),
        ensures
            final(self).wf(),
            final(self).rest() == old(self).rest().skip(old(self).buffered() as int),
            final(self).buffered() == 0,
            final(self).cursor() == 0,
    {
        self.pos = self.pos + self.npeeked;
        self.npeeked = 0;
        self.cur = 0;
        assert(self.rest() =~= old(self).rest().skip(old(self).buffered() as int));
    }

    /// Looks at the item under the look-ahead position and advances that
    /// position; `None` (and no change) when no item is left there.
    pub fn peek(&mut self) -> (r: Option<&T>)
        requires
            old(self).wf(),
        ensures
            final(self).wf(),
            final(self).rest() == old(self).rest(),
            old(self).cursor() < old(self).rest().len() ==> {
                &&& r == Some(&old(self).rest()[old(self).cursor() as int])
                &&& final(self).cursor() == old(self).cursor() + 1
                &&& final(self).buffered() == if old(self).cursor() < old(self).buffered() {
                    old(self).buffered()
                } else {
                    old(self).buffered() + 1
                }
            },
            old(self).cursor() >= old(self).rest().len() ==> {
                &&& r is None
                &&& final(self).cursor() == old(self).cursor()
                &&& final(self).buffered() == old(self).buffered()
            },
    {
        if self.cur < self.npeeked {
            self.cur = self.cur + 1;
            return Some(&self.items[self.pos + self.cur - 1]);
        }
        if self.pos + self.npeeked < self.items.len() {
            self.npeeked = self.npeeked + 1;
            self.cur = self.cur + 1;
            return Some(&self.items[self.pos + self.cur - 1]);
        }
        None
    }

    /// Moves the look-ahead position back by one, if it is not at the start.
    pub fn unpeek(&mut self)
        requires
            old(self).wf(),
        ensures
            final(self).wf(),
            final(self).rest() == old(self).rest(),
            final(self).buffered() == old(self).buffered(),
            final(self).cursor() == if old(self).cursor() > 0 {
                old(self).cursor() - 1
            } else {
                0
            },
    {
        if self.cur > 0 {
            self.cur = self.cur - 1;
        }
    }

    /// Moves the look-ahead position back by one, staying at the start
    /// when it is already there; gives back the cursor for chaining.
    pub fn peek_reset(&mut self) -> (r: &mut Self)
        requires
            old(self).wf(),
        ensures
            r.wf(),
            r.rest() == old(self).rest(),
            r.buffered() == old(self).buffered(),
            r.cursor() == if old(self).cursor() > 0 {
                old(self).cursor() - 1
            } else {
                0
            },
            *final(self) == *final(r),
    {
        if self.cur > 0 {
            self.cur = self.cur - 1;
        }
        self
    }

    /// Moves the look-ahead position back to the start.
    pub fn rewind(&mut self)
        requires
            old(self).wf(),
        ensures
            final(self).wf(),
            final(self).rest() == old(self).rest(),
            final(self).buffered() == old(self).buffered(),
            final(self).cursor() == 0,
    {
        self.cur = 0;
    }
}

impl<T: Copy> MultiPeek<T> {
    /// Consumes and returns the first remaining item, resetting the
    /// look-ahead position.
    pub fn next(&mut self) -> (r: Option<T>)
        requires
            old(self).wf(),
        ensures
            final(self).wf(),
            final(self).cursor() == 0,
            old(self).rest().len() == 0 ==> r is None && final(self).rest() == old(self).rest()
                && final(self).buffered() == 0,
            old(self).rest().len() > 0 ==> {
                &&& r == Some(old(self).rest()[0])
                &&& final(self).rest() == old(self).rest().drop_first()
                &&& final(self).buffered() == if old(self).buffered() > 0 {
                    old(self).buffered() - 1
                } else {
                    0
                }
            },
    {
        self.cur = 0;
        if self.pos < self.items.len() {
            let x = self.items[self.pos];
            self.pos = self.pos + 1;
            if self.npeeked > 0 {
                self.npeeked = self.npeeked - 1;
            }
            assert(self.rest() =~= old(self).rest().drop_first());
            Some(x)
        } else {
            None
        }
    }
}

/// Pairs each item with the item after it: `(current, Some(next))`, and
/// `(last, None)` for the last item.
pub struct WithNext<T> {
    items: Vec<T>,
    pos: usize,
}

impl<T> WithNext<T> {
    /// The items not yet yielded.
    pub closed spec fn rest(&self) -> Seq<T> {
        self.items@.subrange(self.pos as int, self.items@.len() as int)
    }

    pub closed spec fn wf(&self) -> bool {
        self.pos <= self.items@.len()
    }

    pub fn new(items: Vec<T>) -> (r: Self)
        ensures
            r.wf(),
            r.rest() == items@,
    {
        let r = WithNext { items, pos: 0 };
        assert(r.rest() =~= r.items@);
        r
    }
}

impl<T: Copy> WithNext<T> {
    /// The next item paired with its successor, if any item is left.
    pub fn next(&mut self) -> (r: Option<(T, Option<T>)>)
        requires
            old(self).wf(),
        ensures
            final(self).wf(),
            old(self).rest().len() == 0 ==> r is None && final(self).rest() == old(self).rest(),
            old(self).rest().len() > 0 ==> {
                &&& final(self).rest() == old(self).rest().drop_first()
                &&& r == Some(
                    (
                        old(self).rest()[0],
                        if old(self).rest().len() > 1 {
                            Some(old(self).rest()[1])
                        } else {
                            None
                        },
                    ),
                )
            },
    {
        if self.pos >= self.items.len() {
            return None;
        }
        let cur = self.items[self.pos];
        self.pos = self.pos + 1;
        let nxt = if self.pos < self.items.len() {
            Some(self.items[self.pos])
        } else {
            None
        };
        assert(self.rest() =~= old(self).rest().drop_first());
        Some((cur, nxt))
    }
}

/// The pairs that `WithNext` yields for `s`, in order.
pub open spec fn with_next_pairs<T>(s: Seq<T>) -> Seq<(T, Option<T>)> {
    Seq::new(
        s.len(),
        |i: int| (s[i], if i + 1 < s.len() { Some(s[i + 1]) } else { None }),
    )
}

/// All the pairs of `(item, next item)` of a sequence, in order.
pub fn with_next<T: Copy>(items: Vec<T>) -> (r: Vec<(T, Option<T>)>)
    ensures
        r@ == with_next_pairs(items@),
{
    let ghost s = items@;
    let mut w = WithNext::new(items);
    let mut r: Vec<(T, Option<T>)> = Vec::new();
    loop
        invariant
            w.wf(),
            r@.len() + w.rest().len() == s.len(),
            w.rest() == s.skip(r@.len() as int),
            r@ == with_next_pairs(s).take(r@.len() as int),
        ensures
            r@.len() == s.len(),
            r@ == with_next_pairs(s).take(r@.len() as int),
        decreases w.rest().len(),
    {
        proof {
            if w.rest().len() > 0 {
                assert(s.skip(r@.len() as int)[0] == s[r@.len() as int]);
                if w.rest().len() > 1 {
                    assert(s.skip(r@.len() as int)[1] == s[r@.len() + 1 as int]);
                }
            }
        }
        match w.next() {
            Some(p) => {
                r.push(p);
                proof {
                    assert(r@ =~= with_next_pairs(s).take(r@.len() as int));
                    assert(w.rest() =~= s.skip(r@.len() as int));
                }
            },
            None => {
                break ;
            },
        }
    }
    assert(r@ =~= with_next_pairs(s));
    r
}

/// What `take_headtail` keeps of `s`: at most the first `head` items and,
/// of what follows them, at most the last `tail` items. `None` means no
/// limit on that side.
pub open spec fn headtail<T>(s: Seq<T>, head: Option<usize>, tail: Option<usize>) -> Seq<T> {
    let h: int = match head {
        Some(n) => if n < s.len() { n as int } else { s.len() as int },
        None => 0,
    };
    let front = s.take(h);
    let rest = s.skip(h);
    match (head, tail) {
        (None, None) => s,
        (Some(_), None) => front,
        (_, Some(t)) => {
            let k: int = if t < rest.len() { t as int } else { rest.len() as int };
            front + rest.skip(rest.len() - k)
        },
    }
}

/// Keeps at most the first `head` and the last `tail` items of `items`.
///
/// When the two parts would overlap (`head + tail >= len`), everything is
/// kept; otherwise the middle items are dropped.
pub fn take_headtail<T>(items: Vec<T>, head: Option<usize>, tail: Option<usize>) -> (r: Vec<T>)
    ensures
        r@ == headtail(items@, head, tail),
{
    let mut v = items;
    let ghost s = v@;
    let len = v.len();
    let h = match head {
        Some(n) => if n < len { n } else { len },
        None => 0,
    };
    match (head, tail) {
        (None, None) => v,
        (Some(_), None) => {
            v.truncate(h);
            assert(v@ =~= s.take(h as int));
            v
        },
        (_, Some(t)) => {
            let mut rest = v.split_off(h);
            let rl = rest.len();
            let k = if t < rl { t } else { rl };
            let mut back = rest.split_off(rl - k);
            v.append(&mut back);
            assert(v@ =~= headtail(s, head, tail));
            v
        },
    }
}

/// When the head and the tail together cover every item, nothing is
/// dropped.
pub proof fn lemma_headtail_covering<T>(s: Seq<T>, h: usize, t: usize)
    requires
        h + t >= s.len(),
    ensures
        headtail(s, Some(h), Some(t)) == s,
        headtail(s, None, None) == s,
{
    let hh: int = if h < s.len() { h as int } else { s.len() as int };
    let rest = s.skip(hh);
    assert(rest.skip(0) =~= rest);
    assert(s.take(hh) + rest =~= s);
}

/// Whatever the bounds, the result is a sub-sequence made of a prefix and
/// a suffix of the input, with at most `head + tail` items.
pub proof fn lemma_headtail_len<T>(s: Seq<T>, h: usize, t: usize)
    ensures
        headtail(s, Some(h), Some(t)).len() <= h + t,
        headtail(s, Some(h), Some(t)).len() <= s.len(),
{
}

} // verus!
