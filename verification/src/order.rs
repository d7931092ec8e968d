//! Lexicographic order on texts, and sorting by it.
use vstd::prelude::*;

use crate::text::{str_chars, texts};

verus! {

/// `a` precedes or equals `b` in lexicographic order of code points (the
/// order of `String`'s `Ord`).
pub open spec fn text_le(a: Seq<char>, b: Seq<char>) -> bool
    decreases a.len(),
{
    if a.len() == 0 {
        true
    } else if b.len() == 0 {
        false
    } else if a[0] != b[0] {
        a[0] < b[0]
    } else {
        text_le(a.drop_first(), b.drop_first())
    }
}

/// Each element precedes or equals every later one.
pub open spec fn sorted(s: Seq<Seq<char>>) -> bool {
    forall|i: int, j: int| 0 <= i < j < s.len() ==> text_le(#[trigger] s[i], #[trigger] s[j])
}

/// Any two texts are ordered one way or the other.
pub proof fn lemma_text_le_total(a: Seq<char>, b: Seq<char>)
    ensures
        text_le(a, b) || text_le(b, a),
    decreases a.len(),
{
    if a.len() > 0 && b.len() > 0 && a[0] == b[0] {
        lemma_text_le_total(a.drop_first(), b.drop_first());
    }
}

/// The text order is transitive.
pub proof fn lemma_text_le_trans(a: Seq<char>, b: Seq<char>, c: Seq<char>)
    requires
        text_le(a, b),
        text_le(b, c),
    ensures
        text_le(a, c),
    decreases a.len(),
{
    if a.len() > 0 && b.len() > 0 && c.len() > 0 && a[0] == b[0] && b[0] == c[0] {
        lemma_text_le_trans(a.drop_first(), b.drop_first(), c.drop_first());
    }
}

proof fn lemma_text_le_antisym(a: Seq<char>, b: Seq<char>)
    requires
        text_le(a, b),
        text_le(b, a),
    ensures
        a == b,
    decreases a.len(),
{
    if a.len() > 0 && b.len() > 0 {
        lemma_text_le_antisym(a.drop_first(), b.drop_first());
        assert(a =~= seq![a[0]] + a.drop_first());
        assert(b =~= seq![b[0]] + b.drop_first());
    } else {
        assert(a =~= b);
    }
}

/// Whether `a` precedes or equals `b`.
pub fn text_le_exec(a: &String, b: &String) -> (r: bool)
    ensures
        r == text_le(a@, b@),
{
    let x = str_chars(a.as_str());
    let y = str_chars(b.as_str());
    let mut k: usize = 0;
    assert(x@.subrange(0, x@.len() as int) =~= x@);
    assert(y@.subrange(0, y@.len() as int) =~= y@);
    while k < x.len() && k < y.len() && x[k] == y[k]
        invariant
            x@ == a@,
            y@ == b@,
            k <= x@.len(),
            k <= y@.len(),
            text_le(a@, b@) == text_le(x@.subrange(k as int, x@.len() as int), y@.subrange(
                k as int,
                y@.len() as int,
            )),
        decreases x@.len() - k,
    {
        assert(x@.subrange(k as int, x@.len() as int).drop_first() =~= x@.subrange(
            k + 1,
            x@.len() as int,
        ));
        assert(y@.subrange(k as int, y@.len() as int).drop_first() =~= y@.subrange(
            k + 1,
            y@.len() as int,
        ));
        k = k + 1;
    }
    if k == x.len() {
        true
    } else if k == y.len() {
        false
    } else {
        x[k] < y[k]
    }
}

/// The strings of `v` in lexicographic order.
pub fn sort_texts(v: &Vec<String>) -> (r: Vec<String>)
    ensures
        sorted(texts(r@)),
        r@.len() == v@.len(),
        forall|x: Seq<char>| #[trigger] texts(r@).contains(x) <==> texts(v@).contains(x),
        texts(v@).no_duplicates() ==> texts(r@).no_duplicates(),
{
    let mut r: Vec<String> = Vec::new();
    let mut i: usize = 0;
    while i < v.len()
        invariant
            i <= v@.len(),
            r@.len() == i,
            sorted(texts(r@)),
            forall|x: Seq<char>| #[trigger]
                texts(r@).contains(x) <==> texts(v@).take(i as int).contains(x),
            texts(v@).no_duplicates() ==> texts(r@).no_duplicates(),
        decreases v@.len() - i,
    {
        let x = crate::text::copy_string(&v[i]);
        let ghost rv = texts(r@);
        let mut p: usize = 0;
        while p < r.len() && text_le_exec(&r[p], &x)
            invariant
                rv == texts(r@),
                p <= r@.len(),
                forall|j: int| 0 <= j < p ==> text_le(#[trigger] rv[j], x@),
            decreases r@.len() - p,
        {
            p = p + 1;
        }
        proof {
            if p < rv.len() {
                lemma_text_le_total(rv[p as int], x@);
            }
        }
        r.insert(p, x);
        let ghost nr = texts(r@);
        assert(nr =~= rv.insert(p as int, x@));
        assert forall|a: int, b: int| 0 <= a < b < nr.len() implies text_le(#[trigger] nr[a], #[trigger] nr[b]) by {
            if b < p {
                assert(nr[a] == rv[a] && nr[b] == rv[b]);
            } else if b == p {
                assert(nr[a] == rv[a]);
            } else if a < p {
                assert(nr[a] == rv[a] && nr[b] == rv[b - 1]);
                lemma_text_le_trans(rv[a], x@, rv[p as int]);
                if b - 1 > p {
                    lemma_text_le_trans(rv[a], rv[p as int], rv[b - 1]);
                }
            } else if a == p {
                assert(nr[b] == rv[b - 1]);
                if b - 1 > p {
                    lemma_text_le_trans(x@, rv[p as int], rv[b - 1]);
                }
            } else {
                assert(nr[a] == rv[a - 1] && nr[b] == rv[b - 1]);
            }
        }
        let ghost vt = texts(v@).take(i as int);
        assert(texts(v@).take(i + 1) =~= vt.push(x@));
        assert forall|y: Seq<char>| #[trigger] nr.contains(y) <==> texts(v@).take(i + 1).contains(y) by {
            crate::text::lemma_push_contains(vt, x@, y);
            if nr.contains(y) {
                let j = choose|j: int| 0 <= j < nr.len() && nr[j] == y;
                if j < p {
                    assert(rv[j] == y);
                } else if j > p {
                    assert(rv[j - 1] == y);
                }
            }
            if rv.contains(y) {
                let j = choose|j: int| 0 <= j < rv.len() && rv[j] == y;
                if j < p {
                    assert(nr[j] == y);
                } else {
                    assert(nr[j + 1] == y);
                }
            }
            if y == x@ {
                assert(nr[p as int] == y);
            }
        }
        proof {
            if texts(v@).no_duplicates() {
                assert(!vt.contains(x@)) by {
                    if vt.contains(x@) {
                        let j = choose|j: int| 0 <= j < vt.len() && vt[j] == x@;
                        assert(texts(v@)[j] == texts(v@)[i as int]);
                    }
                }
                assert(!rv.contains(x@));
                assert forall|a: int, b: int| 0 <= a < b < nr.len() implies nr[a] != nr[b] by {
                    if a == p {
                        assert(nr[b] == rv[b - 1]);
                    } else if b == p {
                        assert(nr[a] == rv[a]);
                    } else {
                        let aa = if a < p { a } else { a - 1 };
                        let bb = if b < p { b } else { b - 1 };
                        assert(nr[a] == rv[aa] && nr[b] == rv[bb]);
                    }
                }
            }
        }
        i = i + 1;
    }
    assert(texts(v@).take(i as int) =~= texts(v@));
    r
}

} // verus!
