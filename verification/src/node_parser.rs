//! The layout of a node file: a YAML frontmatter block between two `---`
//! lines, then the markdown body.
//!
//! ```text
//! ---
//! id: n-4a7b2c
//! ...
//! ---
//! # Body
//! ```
//!
//! This module finds the two parts of a file and puts them back together;
//! what the YAML block means is read elsewhere.
use vstd::prelude::*;

use crate::error::{Error, ErrorSpec};
use crate::text::{push_char, str_chars, string_from_chars};

verus! {

/// `t` holds `---` at `p`, `p + 1` and `p + 2`.
pub open spec fn dashes_at(t: Seq<char>, p: int) -> bool {
    t[p] == '-' && t[p + 1] == '-' && t[p + 2] == '-'
}

/// A closing delimiter starts at `p`: a line that begins at `p` with `---`
/// and ends right after it, with a line feed, CR LF, or the end of `t`.
pub open spec fn closing_at(t: Seq<char>, p: int) -> bool {
    &&& 0 <= p
    &&& p + 3 <= t.len()
    &&& p == 0 || t[p - 1] == '\n'
    &&& dashes_at(t, p)
    &&& p + 3 == t.len() || t[p + 3] == '\n' || (t[p + 3] == '\r' && p + 4 < t.len() && t[p + 4]
        == '\n')
}

/// The first closing delimiter at or after `from`.
pub open spec fn first_closing(t: Seq<char>, from: int) -> Option<int>
    decreases t.len() - from,
{
    if from >= t.len() {
        None
    } else if closing_at(t, from) {
        Some(from)
    } else {
        first_closing(t, from + 1)
    }
}

/// `s` without a leading byte-order mark.
pub open spec fn without_bom(s: Seq<char>) -> Seq<char> {
    if s.len() > 0 && s[0] == '\u{feff}' {
        s.drop_first()
    } else {
        s
    }
}

/// The length of the opening `---` line of `u` with its line ending
/// (`---\n` or `---\r\n`), or 0 when `u` does not open with one.
pub open spec fn opening_len(u: Seq<char>) -> int {
    if u.len() >= 4 && dashes_at(u, 0) && u[3] == '\n' {
        4
    } else if u.len() >= 5 && dashes_at(u, 0) && u[3] == '\r' && u[4] == '\n' {
        5
    } else {
        0
    }
}

/// `a` without one leading line ending (`\r\n` or `\n`).
pub open spec fn strip_line_end(a: Seq<char>) -> Seq<char> {
    if a.len() >= 2 && a[0] == '\r' && a[1] == '\n' {
        a.skip(2)
    } else if a.len() >= 1 && a[0] == '\n' {
        a.skip(1)
    } else {
        a
    }
}

/// The frontmatter text and the body of a node file, or `None` when the
/// file has no complete frontmatter block.
pub open spec fn frontmatter_parts(s: Seq<char>) -> Option<(Seq<char>, Seq<char>)> {
    let u = without_bom(s);
    let k = opening_len(u);
    if k == 0 {
        None
    } else {
        let t = u.skip(k);
        match first_closing(t, 0) {
            Some(p) => Some((t.take(p), strip_line_end(t.skip(p + 3)))),
            None => None,
        }
    }
}

/// A node file made of the frontmatter text `y` and the body `c`.
pub open spec fn framed(y: Seq<char>, c: Seq<char>) -> Seq<char> {
    seq!['-', '-', '-', '\n'] + y + seq!['-', '-', '-', '\n'] + c
}

proof fn lemma_first_closing_found(t: Seq<char>, from: int, p: int)
    requires
        0 <= from <= p,
        closing_at(t, p),
        forall|q: int| from <= q < p ==> !closing_at(t, q),
    ensures
        first_closing(t, from) == Some(p),
    decreases p - from,
{
    if from < p {
        lemma_first_closing_found(t, from + 1, p);
    }
}

proof fn lemma_first_closing_none(t: Seq<char>, from: int)
    requires
        0 <= from,
        forall|q: int| from <= q < t.len() ==> !closing_at(t, q),
    ensures
        first_closing(t, from) is None,
    decreases t.len() - from,
{
    if from < t.len() {
        lemma_first_closing_none(t, from + 1);
    }
}

proof fn lemma_first_closing_none_means_no_closing(t: Seq<char>, from: int, q: int)
    requires
        0 <= from <= q,
        first_closing(t, from) is None,
    ensures
        !closing_at(t, q),
    decreases q - from,
{
    if from < q && from < t.len() {
        lemma_first_closing_none_means_no_closing(t, from + 1, q);
    }
}

/// The position of the first line feed at or after `from`.
fn memchr_newline(t: &Vec<char>, from: usize) -> (r: Option<usize>)
    requires
        from <= t@.len(),
    ensures
        r matches Some(i) ==> from <= i < t@.len() && t@[i as int] == '\n' && forall|j: int|
            from <= j < i ==> t@[j] != '\n',
        r is None ==> forall|j: int| from <= j < t@.len() ==> t@[j] != '\n',
{
    let mut i = from;
    while i < t.len()
        invariant
            from <= i <= t@.len(),
            forall|j: int| from <= j < i ==> t@[j] != '\n',
        decreases t@.len() - i,
    {
        if t[i] == '\n' {
            return Some(i);
        }
        i = i + 1;
    }
    None
}

/// The position of the closing `---` line: it must start a line (be at
/// the start of `t` or right after a line feed) and be followed by a line
/// feed, CR LF, or the end of `t`.
fn find_closing_delimiter(t: &Vec<char>) -> (r: Result<usize, Error>)
    ensures
        match r {
            Ok(p) => first_closing(t@, 0) == Some(p as int) && closing_at(t@, p as int),
            Err(e) => first_closing(t@, 0) is None && e@ == ErrorSpec::MissingFrontmatter,
        },
{
    let mut pos: usize = 0;
    while pos < t.len()
        invariant
            pos <= t@.len(),
            pos == 0 || t@[pos - 1] == '\n',
            forall|q: int| 0 <= q < pos ==> !closing_at(t@, q),
        decreases t@.len() - pos,
    {
        let candidate = if t.len() - pos >= 3 {
            t[pos] == '-' && t[pos + 1] == '-' && t[pos + 2] == '-'
        } else {
            false
        };
        if candidate {
            let end = pos + 3;
            if end == t.len() || t[end] == '\n' || (t[end] == '\r' && end + 1 < t.len() && t[end
                + 1] == '\n') {
                proof {
                    lemma_first_closing_found(t@, 0, pos as int);
                }
                return Ok(pos);
            }
        }
        assert(!closing_at(t@, pos as int));
        match memchr_newline(t, pos) {
            Some(nl) => {
                assert forall|q: int| 0 <= q < nl + 1 implies !closing_at(t@, q) by {
                    if pos < q {
                        assert(t@[q - 1] != '\n');
                    }
                }
                pos = nl + 1;
            },
            None => {
                proof {
                    assert forall|q: int| 0 <= q < t@.len() implies !closing_at(t@, q) by {
                        if pos < q {
                            assert(t@[q - 1] != '\n');
                        }
                    }
                    lemma_first_closing_none(t@, 0);
                }
                return Err(Error::MissingFrontmatter);
            },
        }
    }
    proof {
        lemma_first_closing_none(t@, 0);
    }
    Err(Error::MissingFrontmatter)
}

/// `v[start..]` as a new vector.
fn chars_from(v: &Vec<char>, start: usize) -> (r: Vec<char>)
    requires
        start <= v@.len(),
    ensures
        r@ == v@.skip(start as int),
{
    let mut r: Vec<char> = Vec::new();
    let mut i = start;
    while i < v.len()
        invariant
            start <= i <= v@.len(),
            r@ == v@.subrange(start as int, i as int),
        decreases v@.len() - i,
    {
        r.push(v[i]);
        i = i + 1;
        assert(r@ =~= v@.subrange(start as int, i as int));
    }
    assert(r@ =~= v@.skip(start as int));
    r
}

/// Splits a node file into its frontmatter text and its body.
///
/// A leading byte-order mark is ignored. The file must open with a `---`
/// line (ended by `\n` or `\r\n`); the frontmatter runs up to the next
/// line that is exactly `---`, and the body starts after that line's line
/// ending. Without both delimiters the file has no frontmatter.
pub fn split_frontmatter(input: &str) -> (r: Result<(String, String), Error>)
    ensures
        match r {
            Ok((y, c)) => frontmatter_parts(input@) == Some((y@, c@)),
            Err(e) => frontmatter_parts(input@) is None && e@ == ErrorSpec::MissingFrontmatter,
        },
{
    let all = str_chars(input);
    let b: usize = if all.len() > 0 && all[0] == '\u{feff}' {
        1
    } else {
        0
    };
    let u = chars_from(&all, b);
    assert(u@ =~= without_bom(input@));
    let k: usize = if u.len() >= 4 && u[0] == '-' && u[1] == '-' && u[2] == '-' && u[3] == '\n' {
        4
    } else if u.len() >= 5 && u[0] == '-' && u[1] == '-' && u[2] == '-' && u[3] == '\r' && u[4]
        == '\n' {
        5
    } else {
        0
    };
    if k == 0 {
        return Err(Error::MissingFrontmatter);
    }
    let t = chars_from(&u, k);
    let p = match find_closing_delimiter(&t) {
        Ok(p) => p,
        Err(e) => {
            return Err(e);
        },
    };
    let yaml = string_from_chars(&t, 0, p);
    let after = p + 3;
    let start: usize = if after + 1 < t.len() && t[after] == '\r' && t[after + 1] == '\n' {
        after + 2
    } else if after < t.len() && t[after] == '\n' {
        after + 1
    } else {
        after
    };
    let content = string_from_chars(&t, start, t.len());
    proof {
        let a = t@.skip(p + 3);
        assert(t@.take(p as int) =~= t@.subrange(0, p as int));
        assert(strip_line_end(a) =~= t@.subrange(start as int, t@.len() as int));
    }
    Ok((yaml, content))
}

/// Writes a node file from its frontmatter text and its body:
/// `---\n{yaml}---\n{content}`. The frontmatter text is expected to end
/// with a line feed, as YAML writers produce it.
pub fn frame_node(yaml: &str, content: &str) -> (r: String)
    ensures
        r@ == framed(yaml@, content@),
{
    let mut r = String::new();
    push_char(&mut r, '-');
    push_char(&mut r, '-');
    push_char(&mut r, '-');
    push_char(&mut r, '\n');
    r.append(yaml);
    push_char(&mut r, '-');
    push_char(&mut r, '-');
    push_char(&mut r, '-');
    push_char(&mut r, '\n');
    r.append(content);
    assert(r@ =~= framed(yaml@, content@));
    r
}

proof fn lemma_no_closing_before_end(y: Seq<char>, c: Seq<char>, q: int)
    requires
        y.len() == 0 || y.last() == '\n',
        0 <= q < y.len(),
        !closing_at(y, q),
    ensures
        !closing_at(y + seq!['-', '-', '-', '\n'] + c, q),
{
    let t = y + seq!['-', '-', '-', '\n'] + c;
    let n = y.len() as int;
    assert(t.len() == n + 4 + c.len());
    assert forall|i: int| 0 <= i < n implies t[i] == y[i] by {}
    assert(t[n] == '-' && t[n + 1] == '-' && t[n + 2] == '-');
    if closing_at(t, q) {
        assert(t[n - 1] == '\n');
        assert(q + 3 < n);
        assert(dashes_at(y, q));
        assert(q == 0 || y[q - 1] == '\n');
        if t[q + 3] == '\n' {
            assert(y[q + 3] == '\n');
        } else {
            assert(q + 4 < n);
            assert(y[q + 3] == '\r' && y[q + 4] == '\n');
        }
        assert(closing_at(y, q));
    }
}

/// A file written by [`frame_node`] splits back into the same two parts,
/// provided the frontmatter text is empty or ends with a line feed and has
/// no line that is exactly `---`.
pub proof fn lemma_split_frame_round_trip(y: Seq<char>, c: Seq<char>)
    requires
        y.len() == 0 || y.last() == '\n',
        first_closing(y, 0) is None,
    ensures
        frontmatter_parts(framed(y, c)) == Some((y, c)),
{
    let s = framed(y, c);
    let t = y + seq!['-', '-', '-', '\n'] + c;
    let n = y.len() as int;
    assert(s[0] == '-' && s[1] == '-' && s[2] == '-' && s[3] == '\n');
    assert(without_bom(s) == s);
    assert(opening_len(s) == 4);
    assert(s.skip(4) =~= t);
    assert forall|q: int| 0 <= q < n implies !closing_at(t, q) by {
        lemma_first_closing_none_means_no_closing(y, 0, q);
        lemma_no_closing_before_end(y, c, q);
    }
    assert(t[n] == '-' && t[n + 1] == '-' && t[n + 2] == '-' && t[n + 3] == '\n');
    assert(n == 0 || t[n - 1] == '\n');
    assert(closing_at(t, n));
    lemma_first_closing_found(t, 0, n);
    assert(t.take(n) =~= y);
    assert(t.skip(n + 3) =~= seq!['\n'] + c);
    assert(strip_line_end(t.skip(n + 3)) =~= c);
}

} // verus!
