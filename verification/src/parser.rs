//! The text-level pieces of the journal format: posting and transaction
//! states, comment tags (`:tag1:tag2:`) and value tags (`tag: value`).

use vstd::prelude::*;

use crate::journal::{split_at_seps, split_parts_spec};
use crate::symbol::Tag;
use crate::text::{chars_of, is_whitespace, no_ws, spec_is_whitespace, string_of, trim_chars, trim_spec};

verus! {

/// Errors of the journal parser.
#[derive(Debug)]
pub enum ParseError {
    /// A date that does not exist in the calendar.
    InvalidDate,
    /// An amount that does not follow the number format.
    InvalidNumber(String),
    /// A transaction with more postings without amount than allowed; the
    /// payload is how many it has.
    ElidingAmount(usize),
    /// A transaction whose postings do not balance.
    XactNoBalanced,
    /// A transaction that could not be decoded from a structured format.
    Deser(String),
}

/// The state of a transaction or posting.
#[derive(Debug, Copy, Clone, PartialEq, Eq)]
pub enum State {
    /// Neither `*` nor `!`.
    Unmarked,
    /// `*`
    Cleared,
    /// `!`
    Pending,
}

/// The state marked by `s`: `!` is pending and `*` is cleared.
pub fn parse_state(s: &str) -> (r: State)
    requires
        s@ == seq!['!'] || s@ == seq!['*'],
    ensures
        s@ == seq!['!'] ==> r == State::Pending,
        s@ == seq!['*'] ==> r == State::Cleared,
{
    let cs = chars_of(s);
    if cs[0] == '!' {
        State::Pending
    } else {
        State::Cleared
    }
}

/// The segments strictly between consecutive colons of a comment that can
/// be tags: not empty and without whitespace.
pub open spec fn tag_candidates(parts: Seq<Seq<char>>) -> Seq<Seq<char>>
    decreases parts.len(),
{
    if parts.len() == 0 {
        Seq::empty()
    } else {
        let rest = tag_candidates(parts.drop_last());
        let p = parts.last();
        if p.len() > 0 && no_ws(p) {
            rest.push(p)
        } else {
            rest
        }
    }
}

/// The tags of a comment line: every non-empty, whitespace-free piece of
/// text that sits between two consecutive colons, in order. So
/// `:a:b:` and `:a::b:` both carry the tags `a` and `b`.
pub open spec fn tags_spec(line: Seq<char>) -> Seq<Seq<char>> {
    let parts = split_parts_spec(line);
    if parts.len() < 2 {
        Seq::empty()
    } else {
        tag_candidates(parts.subrange(1, parts.len() - 1))
    }
}

fn has_whitespace(cs: &Vec<char>) -> (r: bool)
    ensures
        r == !no_ws(cs@),
{
    let mut i: usize = 0;
    while i < cs.len()
        invariant
            i <= cs@.len(),
            forall|j: int| 0 <= j < i ==> !spec_is_whitespace(cs@[j]),
        decreases cs@.len() - i,
    {
        if is_whitespace(cs[i]) {
            return true;
        }
        i = i + 1;
    }
    false
}

/// Parses the tags of a comment line, written `:tag:` or `:tag1:tag2:`.
pub fn parse_tags(line: &str) -> (r: Result<Vec<Tag>, ParseError>)
    ensures
        r matches Ok(tags) && tags@.map_values(|t: Tag| t@) == tags_spec(line@),
{
    let cs = chars_of(line);
    let parts = split_at_seps(&cs);
    let ghost ps = parts@.map_values(|x: String| x@);
    let mut tags: Vec<Tag> = Vec::new();
    let n = parts.len();
    if n < 2 {
        assert(tags@.map_values(|t: Tag| t@) =~= Seq::<Seq<char>>::empty());
        return Ok(tags);
    }
    let mut i: usize = 1;
    while i < n - 1
        invariant
            2 <= n == ps.len(),
            1 <= i <= n - 1,
            ps == parts@.map_values(|x: String| x@),
            tags@.map_values(|t: Tag| t@) == tag_candidates(ps.subrange(1, i as int)),
        decreases n - 1 - i,
    {
        let pc = chars_of(parts[i].as_str());
        assert(ps.subrange(1, i + 1).drop_last() =~= ps.subrange(1, i as int));
        assert(ps.subrange(1, i + 1).last() == pc@);
        if pc.len() > 0 && !has_whitespace(&pc) {
            let ghost before = tags@.map_values(|t: Tag| t@);
            tags.push(Tag::from_chars(pc.as_slice()));
            assert(tags@.map_values(|t: Tag| t@) =~= before.push(pc@));
        }
        i = i + 1;
    }
    Ok(tags)
}

/// Index of the first character at or after `i` that is not a space.
pub open spec fn skip_spaces(s: Seq<char>, i: int) -> int
    decreases s.len() - i,
{
    if 0 <= i < s.len() && s[i] == ' ' {
        skip_spaces(s, i + 1)
    } else {
        i
    }
}

/// Scans `s` from `i` for a value tag.
///
/// `found` tells whether the scan is inside a word that may be a tag
/// name, and `name` holds that word so far. A word may be a tag name when
/// it starts the line or follows a run of spaces that does not come
/// right after a word; it ends at whitespace. A word that reaches a
/// colon followed by a space is the tag name, and the text after that
/// space is the value; a colon followed by anything else ends the word
/// without a match.
pub open spec fn vtag_scan(s: Seq<char>, i: int, found: bool, name: Seq<char>) -> Option<
    (Seq<char>, Seq<char>),
>
    decreases s.len() - i, if found { 0int } else { 1int },
{
    if i < 0 || i >= s.len() {
        None
    } else if found {
        let c = s[i];
        if spec_is_whitespace(c) {
            vtag_scan(s, i + 1, false, Seq::empty())
        } else if c != ':' {
            vtag_scan(s, i + 1, true, name.push(c))
        } else if i + 1 >= s.len() {
            None
        } else if s[i + 1] != ' ' {
            vtag_scan(s, i + 1, false, Seq::empty())
        } else {
            Some((name, s.skip(i + 2)))
        }
    } else if s[i] == ' ' {
        proof {
            lemma_skip_spaces(s, i + 1);
        }
        vtag_scan(s, skip_spaces(s, i + 1), true, name)
    } else {
        vtag_scan(s, i + 1, false, name)
    }
}

/// The value tag of a line, after trimming it: the tag name and the value.
pub open spec fn vtag_spec(line: Seq<char>) -> Option<(Seq<char>, Seq<char>)> {
    vtag_scan(trim_spec(line), 0, true, Seq::empty())
}

pub proof fn lemma_skip_spaces(s: Seq<char>, i: int)
    requires
        0 <= i <= s.len(),
    ensures
        i <= skip_spaces(s, i) <= s.len(),
        forall|j: int| i <= j < skip_spaces(s, i) ==> s[j] == ' ',
        skip_spaces(s, i) < s.len() ==> s[skip_spaces(s, i)] != ' ',
    decreases s.len() - i,
{
    if i < s.len() && s[i] == ' ' {
        lemma_skip_spaces(s, i + 1);
    }
}

/// Parses a value tag, written `tag: some value`.
pub fn parse_vtags(line: &str) -> (r: Result<Option<(Tag, String)>, ParseError>)
    ensures
        r matches Ok(v) && match (v, vtag_spec(line@)) {
            (None, None) => true,
            (Some((t, val)), Some((n, w))) => t@ == n && val@ == w,
            _ => false,
        },
{
    let all = chars_of(line);
    let s = trim_chars(all.as_slice());
    let n = s.len();
    let mut curr: Vec<char> = Vec::new();
    let mut found = true;
    let mut i: usize = 0;
    while i < n
        invariant
            n == s@.len(),
            s@ == trim_spec(line@),
            i <= n,
            vtag_scan(s@, i as int, found, curr@) == vtag_spec(line@),
        ensures
            vtag_spec(line@) is None,
        decreases n - i, if found { 0int } else { 1int },
    {
        let c = s[i];
        if found {
            if is_whitespace(c) {
                found = false;
                curr = Vec::new();
                i = i + 1;
                continue;
            }
            if c != ':' {
                curr.push(c);
                i = i + 1;
                continue;
            }
            if i + 1 >= n {
                break ;
            }
            if s[i + 1] != ' ' {
                curr = Vec::new();
                found = false;
                i = i + 1;
                continue;
            }
            let tag = Tag::from_chars(curr.as_slice());
            let val = string_of(&s.as_slice()[i + 2..n]);
            assert(s@.subrange(i + 2, n as int) =~= s@.skip(i + 2));
            return Ok(Some((tag, val)));
        }
        if c == ' ' {
            let mut j = i + 1;
            while j < n && s[j] == ' '
                invariant
                    i < j <= n == s@.len(),
                    skip_spaces(s@, i + 1) == skip_spaces(s@, j as int),
                decreases n - j,
            {
                j = j + 1;
            }
            proof {
                lemma_skip_spaces(s@, j as int);
            }
            found = true;
            i = j;
            continue;
        }
        i = i + 1;
    }
    Ok(None)
}

/// The lines of a comment joined with newlines.
pub open spec fn join_lines(ls: Seq<Seq<char>>) -> Seq<char>
    decreases ls.len(),
{
    if ls.len() == 0 {
        Seq::empty()
    } else if ls.len() == 1 {
        ls[0]
    } else {
        join_lines(ls.drop_last()) + seq!['\n'] + ls.last()
    }
}

/// The tags of all the lines, in order.
pub open spec fn lines_tags(ls: Seq<Seq<char>>) -> Seq<Seq<char>>
    decreases ls.len(),
{
    if ls.len() == 0 {
        Seq::empty()
    } else {
        lines_tags(ls.drop_last()) + tags_spec(ls.last())
    }
}

/// Position of the value tag named `k`, or `-1`.
pub open spec fn vtag_pos(es: Seq<(Seq<char>, Seq<char>)>, k: Seq<char>) -> int
    decreases es.len(),
{
    if es.len() == 0 {
        -1
    } else if es.last().0 == k {
        es.len() - 1
    } else {
        vtag_pos(es.drop_last(), k)
    }
}

/// Sets the value of tag `k` to `v`: replaces the value of a tag of that
/// name, or adds the tag at the end.
pub open spec fn vtag_insert(es: Seq<(Seq<char>, Seq<char>)>, k: Seq<char>, v: Seq<char>) -> Seq<
    (Seq<char>, Seq<char>),
> {
    let i = vtag_pos(es, k);
    if i >= 0 {
        es.update(i, (k, v))
    } else {
        es.push((k, v))
    }
}

/// The value tags of all the lines; a later value of a tag replaces an
/// earlier one.
pub open spec fn lines_vtags(ls: Seq<Seq<char>>) -> Seq<(Seq<char>, Seq<char>)>
    decreases ls.len(),
{
    if ls.len() == 0 {
        Seq::empty()
    } else {
        let r = lines_vtags(ls.drop_last());
        match vtag_spec(ls.last()) {
            Some((k, v)) => vtag_insert(r, k, v),
            None => r,
        }
    }
}

/// The names and values of value tags.
pub open spec fn vtag_views(vs: Seq<(Tag, String)>) -> Seq<(Seq<char>, Seq<char>)> {
    vs.map_values(|e: (Tag, String)| (e.0@, e.1@))
}

proof fn lemma_vtag_pos(es: Seq<(Seq<char>, Seq<char>)>, k: Seq<char>)
    ensures
        -1 <= vtag_pos(es, k) < es.len(),
        vtag_pos(es, k) >= 0 ==> es[vtag_pos(es, k)].0 == k,
        forall|j: int| vtag_pos(es, k) < j < es.len() ==> es[j].0 != k,
    decreases es.len(),
{
    if es.len() > 0 && es.last().0 != k {
        let init = es.drop_last();
        lemma_vtag_pos(init, k);
        assert(forall|j: int| 0 <= j < init.len() ==> es[j] == init[j]);
    }
}

/// The position of the last value tag named like `t`.
fn find_vtag(vs: &Vec<(Tag, String)>, t: &Tag) -> (r: Option<usize>)
    ensures
        match r {
            Some(i) => i == vtag_pos(vtag_views(vs@), t@) && i < vs@.len(),
            None => vtag_pos(vtag_views(vs@), t@) == -1,
        },
{
    let ghost es = vtag_views(vs@);
    proof {
        lemma_vtag_pos(es, t@);
    }
    let mut i: usize = vs.len();
    while i > 0
        invariant
            i <= vs@.len(),
            es == vtag_views(vs@),
            es.len() == vs@.len(),
            -1 <= vtag_pos(es, t@) < es.len(),
            vtag_pos(es, t@) >= 0 ==> es[vtag_pos(es, t@)].0 == t@,
            forall|j: int| vtag_pos(es, t@) < j < es.len() ==> es[j].0 != t@,
            forall|j: int| i <= j < vs@.len() ==> es[j].0 != t@,
        decreases i,
    {
        if vs[i - 1].0.same(t) {
            proof {
                assert(es[i - 1].0 == t@);
                if vtag_pos(es, t@) < i - 1 {
                    assert(es[i - 1].0 != t@);
                }
                if vtag_pos(es, t@) > i - 1 {
                    assert(es[vtag_pos(es, t@)].0 == t@);
                }
            }
            return Some(i - 1);
        }
        i = i - 1;
    }
    proof {
        if vtag_pos(es, t@) >= 0 {
            assert(es[vtag_pos(es, t@)].0 == t@);
        }
    }
    None
}

/// Sets the value of a tag in `vs`, as `vtag_insert` says.
fn insert_vtag(vs: &mut Vec<(Tag, String)>, t: Tag, v: String)
    ensures
        vtag_views(final(vs)@) == vtag_insert(vtag_views(old(vs)@), t@, v@),
{
    let ghost es = vtag_views(vs@);
    match find_vtag(vs, &t) {
        Some(i) => {
            vs.set(i, (t, v));
            assert(vtag_views(vs@) =~= es.update(i as int, (t@, v@)));
        },
        None => {
            vs.push((t, v));
            assert(vtag_views(vs@) =~= es.push((t@, v@)));
        },
    }
}

/// Reads the lines of a comment: the comment is the lines joined with
/// newlines, with the tags (`:tag:`) of every line in order and the
/// value tags (`tag: value`), a later value of a tag replacing an
/// earlier one.
pub fn parse_comment(lines: &Vec<String>) -> (r: (String, Vec<Tag>, Vec<(Tag, String)>))
    ensures
        r.0@ == join_lines(lines@.map_values(|l: String| l@)),
        r.1@.map_values(|t: Tag| t@) == lines_tags(lines@.map_values(|l: String| l@)),
        vtag_views(r.2@) == lines_vtags(lines@.map_values(|l: String| l@)),
{
    let ghost ls = lines@.map_values(|l: String| l@);
    let mut text: Vec<char> = Vec::new();
    let mut tags: Vec<Tag> = Vec::new();
    let mut vtags: Vec<(Tag, String)> = Vec::new();
    let mut i: usize = 0;
    assert(ls.take(0) =~= Seq::<Seq<char>>::empty());
    assert(tags@.map_values(|t: Tag| t@) =~= Seq::<Seq<char>>::empty());
    assert(vtag_views(vtags@) =~= Seq::<(Seq<char>, Seq<char>)>::empty());
    while i < lines.len()
        invariant
            i <= lines@.len(),
            ls == lines@.map_values(|l: String| l@),
            ls.len() == lines@.len(),
            text@ == join_lines(ls.take(i as int)),
            tags@.map_values(|t: Tag| t@) == lines_tags(ls.take(i as int)),
            vtag_views(vtags@) == lines_vtags(ls.take(i as int)),
        decreases lines@.len() - i,
    {
        let line = lines[i].as_str();
        let ghost l = ls[i as int];
        assert(line@ == l);
        assert(ls.take(i + 1).drop_last() =~= ls.take(i as int));
        assert(ls.take(i + 1).last() == l);
        let cs = chars_of(line);
        let ghost before = text@;
        if i > 0 {
            text.push('\n');
        }
        let mut j: usize = 0;
        let ghost mid = text@;
        while j < cs.len()
            invariant
                j <= cs@.len(),
                text@ == mid + cs@.take(j as int),
            decreases cs@.len() - j,
        {
            text.push(cs[j]);
            assert(text@ =~= mid + cs@.take(j + 1));
            j = j + 1;
        }
        assert(cs@.take(cs@.len() as int) =~= cs@);
        proof {
            if i == 0 {
                assert(ls.take(1) =~= seq![l]);
                assert(text@ =~= l);
            } else {
                assert(text@ =~= before + seq!['\n'] + l);
            }
        }
        let ts = match parse_tags(line) {
            Ok(ts) => ts,
            Err(_) => Vec::new(),
        };
        let ghost tb = tags@.map_values(|t: Tag| t@);
        let ghost tsv = ts@.map_values(|t: Tag| t@);
        let mut k: usize = 0;
        while k < ts.len()
            invariant
                k <= ts@.len(),
                tsv == ts@.map_values(|t: Tag| t@),
                tsv.len() == ts@.len(),
                tags@.map_values(|t: Tag| t@) == tb + tsv.take(k as int),
            decreases ts@.len() - k,
        {
            assert(tsv[k as int] == ts@[k as int]@);
            let ghost tb2 = tags@;
            tags.push(ts[k].duplicate());
            assert(tags@ == tb2.push(ts@[k as int]));
            assert(tags@.map_values(|t: Tag| t@) =~= tb2.map_values(|t: Tag| t@).push(ts@[k as int]@));
            assert(tb + tsv.take(k + 1) =~= (tb + tsv.take(k as int)).push(tsv[k as int]));
            assert(tags@.map_values(|t: Tag| t@) =~= tb + tsv.take(k + 1));
            k = k + 1;
        }
        assert(tsv.take(tsv.len() as int) =~= tsv);
        match parse_vtags(line) {
            Ok(Some((t, v))) => insert_vtag(&mut vtags, t, v),
            _ => {},
        }
        i = i + 1;
    }
    assert(ls.take(lines@.len() as int) =~= ls);
    (string_of(text.as_slice()), tags, vtags)
}

} // verus!
