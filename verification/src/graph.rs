//! Reachability over graphs whose vertices are node IDs.
//!
//! A graph is given as an edge relation on texts; an [`Adjacency`] lists, for
//! each vertex, its successors. [`reach_set`] computes every vertex that a
//! start vertex reaches by one or more edges.
use vstd::prelude::*;

use crate::text::{copy_string, same_text, texts, vec_contains_text};

verus! {

/// A vertex with its successors.
pub type Adjacency = Vec<(String, Vec<String>)>;

/// The mathematical value of an adjacency list.
pub open spec fn adj_view(a: Seq<(String, Vec<String>)>) -> Seq<(Seq<char>, Seq<Seq<char>>)> {
    a.map_values(|e: (String, Vec<String>)| (e.0@, texts(e.1@)))
}

/// The vertices that an adjacency list names as keys.
pub open spec fn keys(a: Seq<(Seq<char>, Seq<Seq<char>>)>) -> Seq<Seq<char>> {
    a.map_values(|e: (Seq<char>, Seq<Seq<char>>)| e.0)
}

/// Whether the adjacency list has an edge from `x` to `y`.
pub open spec fn has_edge(a: Seq<(Seq<char>, Seq<Seq<char>>)>, x: Seq<char>, y: Seq<char>) -> bool {
    exists|i: int| 0 <= i < a.len() && #[trigger] a[i].0 == x && a[i].1.contains(y)
}

/// Keys are distinct and every successor is itself a key.
pub open spec fn well_keyed(a: Seq<(Seq<char>, Seq<Seq<char>>)>) -> bool {
    &&& keys(a).no_duplicates()
    &&& forall|i: int, y: Seq<char>|
        0 <= i < a.len() && #[trigger] a[i].1.contains(y) ==> keys(a).contains(y)
}

/// The `i`-th step of `p` is an edge.
pub open spec fn step(rel: spec_fn(Seq<char>, Seq<char>) -> bool, p: Seq<Seq<char>>, i: int) -> bool {
    rel(p[i], p[i + 1])
}

/// `p` is a walk of one or more edges.
pub open spec fn is_path(rel: spec_fn(Seq<char>, Seq<char>) -> bool, p: Seq<Seq<char>>) -> bool {
    &&& p.len() >= 2
    &&& forall|i: int| 0 <= i < p.len() - 1 ==> #[trigger] step(rel, p, i)
}

/// `a` reaches `b` by one or more edges.
pub open spec fn reaches(rel: spec_fn(Seq<char>, Seq<char>) -> bool, a: Seq<char>, b: Seq<char>) -> bool {
    exists|p: Seq<Seq<char>>| #[trigger] is_path(rel, p) && p[0] == a && p.last() == b
}

/// The edge relation of an adjacency list.
pub open spec fn edges_of(a: Seq<(Seq<char>, Seq<Seq<char>>)>) -> spec_fn(Seq<char>, Seq<char>) -> bool {
    |x: Seq<char>, y: Seq<char>| has_edge(a, x, y)
}

/// A single edge is a walk.
pub proof fn lemma_edge_reaches(rel: spec_fn(Seq<char>, Seq<char>) -> bool, x: Seq<char>, y: Seq<char>)
    requires
        rel(x, y),
    ensures
        reaches(rel, x, y),
{
    let p = seq![x, y];
    assert(step(rel, p, 0));
    assert(is_path(rel, p));
}

/// A walk extended by one more edge is a walk.
pub proof fn lemma_reaches_extend(
    rel: spec_fn(Seq<char>, Seq<char>) -> bool,
    a: Seq<char>,
    x: Seq<char>,
    y: Seq<char>,
)
    requires
        reaches(rel, a, x),
        rel(x, y),
    ensures
        reaches(rel, a, y),
{
    let p = choose|p: Seq<Seq<char>>| #[trigger] is_path(rel, p) && p[0] == a && p.last() == x;
    let q = p.push(y);
    assert forall|i: int| 0 <= i < q.len() - 1 implies #[trigger] step(rel, q, i) by {
        if i < p.len() - 1 {
            assert(step(rel, p, i));
        }
    }
    assert(is_path(rel, q));
}

/// Walks compose: if `a` reaches `b` and `b` reaches `c`, `a` reaches `c`.
pub proof fn lemma_reaches_trans(
    rel: spec_fn(Seq<char>, Seq<char>) -> bool,
    a: Seq<char>,
    b: Seq<char>,
    c: Seq<char>,
)
    requires
        reaches(rel, a, b),
        reaches(rel, b, c),
    ensures
        reaches(rel, a, c),
{
    let p = choose|p: Seq<Seq<char>>| #[trigger] is_path(rel, p) && p[0] == a && p.last() == b;
    let q = choose|q: Seq<Seq<char>>| #[trigger] is_path(rel, q) && q[0] == b && q.last() == c;
    let r = p + q.drop_first();
    assert forall|i: int| 0 <= i < r.len() - 1 implies #[trigger] step(rel, r, i) by {
        if i < p.len() - 1 {
            assert(step(rel, p, i));
        } else {
            let j = i - (p.len() - 1);
            assert(step(rel, q, j));
            assert(r[i] == q[j]);
            assert(r[i + 1] == q[j + 1]);
        }
    }
    assert(is_path(rel, r));
}

/// The first edge of a walk from `a`: a successor of `a` that reaches `b`
/// or is `b`.
pub proof fn lemma_reaches_first_step(rel: spec_fn(Seq<char>, Seq<char>) -> bool, a: Seq<char>, b: Seq<char>)
    requires
        reaches(rel, a, b),
    ensures
        exists|d: Seq<char>| #[trigger] rel(a, d) && (d == b || reaches(rel, d, b)),
{
    let p = choose|p: Seq<Seq<char>>| #[trigger] is_path(rel, p) && p[0] == a && p.last() == b;
    assert(step(rel, p, 0));
    let d = p[1];
    if p.len() > 2 {
        let q = p.drop_first();
        assert forall|i: int| 0 <= i < q.len() - 1 implies #[trigger] step(rel, q, i) by {
            assert(step(rel, p, i + 1));
        }
        assert(is_path(rel, q));
    }
    assert(rel(a, d));
}

/// A set of vertices that holds every successor of `a` and is closed under
/// edges holds every vertex that `a` reaches.
pub proof fn lemma_closed_holds_reach(
    rel: spec_fn(Seq<char>, Seq<char>) -> bool,
    s: spec_fn(Seq<char>) -> bool,
    a: Seq<char>,
    b: Seq<char>,
)
    requires
        forall|y: Seq<char>| #[trigger] rel(a, y) ==> s(y),
        forall|x: Seq<char>, y: Seq<char>| s(x) && #[trigger] rel(x, y) ==> s(y),
        reaches(rel, a, b),
    ensures
        s(b),
{
    let p = choose|p: Seq<Seq<char>>| #[trigger] is_path(rel, p) && p[0] == a && p.last() == b;
    lemma_path_in_closed(rel, s, p, p.len() - 1);
}

proof fn lemma_path_in_closed(
    rel: spec_fn(Seq<char>, Seq<char>) -> bool,
    s: spec_fn(Seq<char>) -> bool,
    p: Seq<Seq<char>>,
    k: int,
)
    requires
        is_path(rel, p),
        1 <= k < p.len(),
        forall|y: Seq<char>| #[trigger] rel(p[0], y) ==> s(y),
        forall|x: Seq<char>, y: Seq<char>| s(x) && #[trigger] rel(x, y) ==> s(y),
    ensures
        s(p[k]),
    decreases k,
{
    assert(step(rel, p, k - 1));
    if k > 1 {
        lemma_path_in_closed(rel, s, p, k - 1);
    }
}

/// `a` reaches `b` by a walk of one edge and at most `k` edges.
pub open spec fn reaches_within(
    rel: spec_fn(Seq<char>, Seq<char>) -> bool,
    a: Seq<char>,
    b: Seq<char>,
    k: int,
) -> bool {
    exists|p: Seq<Seq<char>>| #[trigger] is_path(rel, p) && p[0] == a && p.last() == b && p.len() <= k + 1
}

/// A walk of at most `k` edges has at most `m` edges for every `m >= k`.
pub proof fn lemma_within_monotone(
    rel: spec_fn(Seq<char>, Seq<char>) -> bool,
    a: Seq<char>,
    b: Seq<char>,
    k: int,
    m: int,
)
    requires
        reaches_within(rel, a, b, k),
        k <= m,
    ensures
        reaches_within(rel, a, b, m),
{
    let p = choose|p: Seq<Seq<char>>|
        #[trigger] is_path(rel, p) && p[0] == a && p.last() == b && p.len() <= k + 1;
    assert(is_path(rel, p) && p[0] == a && p.last() == b && p.len() <= m + 1);
}

/// `a` reaches `b` exactly when it does so within some number of edges.
pub proof fn lemma_reaches_within_some(
    rel: spec_fn(Seq<char>, Seq<char>) -> bool,
    a: Seq<char>,
    b: Seq<char>,
)
    ensures
        reaches(rel, a, b) <==> exists|k: int| #[trigger] reaches_within(rel, a, b, k),
{
    if reaches(rel, a, b) {
        let p = choose|p: Seq<Seq<char>>| #[trigger] is_path(rel, p) && p[0] == a && p.last() == b;
        assert(reaches_within(rel, a, b, p.len() - 1));
    }
    if exists|k: int| #[trigger] reaches_within(rel, a, b, k) {
        let k = choose|k: int| #[trigger] reaches_within(rel, a, b, k);
        let p = choose|p: Seq<Seq<char>>|
            #[trigger] is_path(rel, p) && p[0] == a && p.last() == b && p.len() <= k + 1;
        assert(is_path(rel, p) && p[0] == a && p.last() == b);
    }
}

/// No walk has fewer than one edge.
pub proof fn lemma_within_none(
    rel: spec_fn(Seq<char>, Seq<char>) -> bool,
    a: Seq<char>,
    b: Seq<char>,
    k: int,
)
    requires
        k < 1,
    ensures
        !reaches_within(rel, a, b, k),
{
}

/// A walk of at most `k + 1` edges is one edge, or a walk of at most `k`
/// edges followed by one edge.
pub proof fn lemma_within_step(
    rel: spec_fn(Seq<char>, Seq<char>) -> bool,
    a: Seq<char>,
    y: Seq<char>,
    k: int,
)
    requires
        k >= 0,
    ensures
        reaches_within(rel, a, y, k + 1) <==> (rel(a, y) || exists|x: Seq<char>|
            reaches_within(rel, a, x, k) && #[trigger] rel(x, y)),
{
    if reaches_within(rel, a, y, k + 1) {
        let p = choose|p: Seq<Seq<char>>|
            #[trigger] is_path(rel, p) && p[0] == a && p.last() == y && p.len() <= k + 2;
        assert(step(rel, p, p.len() - 2));
        if p.len() > 2 {
            let q = p.drop_last();
            assert forall|i: int| 0 <= i < q.len() - 1 implies #[trigger] step(rel, q, i) by {
                assert(step(rel, p, i));
            }
            assert(is_path(rel, q) && q[0] == a && q.last() == p[p.len() - 2] && q.len() <= k + 1);
            assert(reaches_within(rel, a, p[p.len() - 2], k));
        }
    }
    if rel(a, y) {
        let p = seq![a, y];
        assert(step(rel, p, 0));
        assert(is_path(rel, p) && p[0] == a && p.last() == y && p.len() <= k + 2);
    } else if exists|x: Seq<char>| reaches_within(rel, a, x, k) && #[trigger] rel(x, y) {
        let x = choose|x: Seq<char>| reaches_within(rel, a, x, k) && #[trigger] rel(x, y);
        let p = choose|p: Seq<Seq<char>>|
            #[trigger] is_path(rel, p) && p[0] == a && p.last() == x && p.len() <= k + 1;
        let q = p.push(y);
        assert forall|i: int| 0 <= i < q.len() - 1 implies #[trigger] step(rel, q, i) by {
            if i < p.len() - 1 {
                assert(step(rel, p, i));
            }
        }
        assert(is_path(rel, q) && q[0] == a && q.last() == y && q.len() <= k + 2);
    }
}

/// A sequence without repeats whose elements all occur in `ks` is no longer than `ks`.
pub proof fn lemma_bounded_by_keys(f: Seq<Seq<char>>, ks: Seq<Seq<char>>)
    requires
        f.no_duplicates(),
        forall|x: Seq<char>| f.contains(x) ==> ks.contains(x),
    ensures
        f.len() <= ks.len(),
{
    broadcast use vstd::seq_lib::seq_to_set_is_finite;

    f.unique_seq_to_set();
    ks.lemma_cardinality_of_set();
    assert(f.to_set().subset_of(ks.to_set()));
    vstd::set_lib::lemma_len_subset(f.to_set(), ks.to_set());
}

/// The index of the entry keyed `key`, if there is one.
pub fn lookup(adj: &Adjacency, key: &String) -> (r: Option<usize>)
    ensures
        r matches Some(i) ==> i < adj@.len() && adj@[i as int].0@ == key@,
        r is None ==> forall|i: int| 0 <= i < adj@.len() ==> adj@[i].0@ != key@,
{
    let mut i: usize = 0;
    while i < adj.len()
        invariant
            i <= adj@.len(),
            forall|j: int| 0 <= j < i ==> adj@[j].0@ != key@,
        decreases adj@.len() - i,
    {
        if same_text(&adj[i].0, key) {
            return Some(i);
        }
        i = i + 1;
    }
    None
}

proof fn lemma_key_index(a: Seq<(Seq<char>, Seq<Seq<char>>)>, i: int, x: Seq<char>, y: Seq<char>)
    requires
        keys(a).no_duplicates(),
        0 <= i < a.len(),
        a[i].0 == x,
    ensures
        has_edge(a, x, y) <==> a[i].1.contains(y),
{
    if has_edge(a, x, y) {
        let j = choose|j: int| 0 <= j < a.len() && #[trigger] a[j].0 == x && a[j].1.contains(y);
        assert(keys(a)[i] == keys(a)[j]);
    }
}

/// Appends to `found` each element of `list` that it lacks.
fn add_missing(found: &mut Vec<String>, list: &Vec<String>)
    requires
        texts(old(found)@).no_duplicates(),
    ensures
        texts(final(found)@).no_duplicates(),
        final(found)@.len() >= old(found)@.len(),
        forall|j: int| 0 <= j < old(found)@.len() ==> final(found)@[j] == old(found)@[j],
        forall|x: Seq<char>| #[trigger]
            texts(final(found)@).contains(x) <==> (texts(old(found)@).contains(x) || texts(
                list@,
            ).contains(x)),
{
    let ghost f0 = texts(found@);
    let mut k: usize = 0;
    while k < list.len()
        invariant
            k <= list@.len(),
            texts(found@).no_duplicates(),
            found@.len() >= f0.len(),
            forall|j: int| 0 <= j < f0.len() ==> #[trigger] texts(found@)[j] == f0[j],
            forall|j: int| 0 <= j < old(found)@.len() ==> found@[j] == old(found)@[j],
            f0 == texts(old(found)@),
            forall|x: Seq<char>| #[trigger]
                texts(found@).contains(x) <==> (f0.contains(x) || texts(list@).take(
                    k as int,
                ).contains(x)),
        decreases list@.len() - k,
    {
        let ghost before = texts(found@);
        let ghost lk = texts(list@).take(k as int);
        assert(texts(list@).take(k + 1) =~= lk.push(list@[k as int]@));
        if !vec_contains_text(found, &list[k]) {
            found.push(copy_string(&list[k]));
            assert(texts(found@) =~= before.push(list@[k as int]@));
        } else {
            assert(texts(found@) == before);
        }
        assert forall|x: Seq<char>| #[trigger]
            texts(found@).contains(x) <==> (f0.contains(x) || texts(list@).take(k + 1).contains(
                x,
            )) by {
            if texts(found@).len() > before.len() {
                assert(before.push(list@[k as int]@).contains(x) <==> (before.contains(x) || x
                    == list@[k as int]@)) by {
                    if before.push(list@[k as int]@).contains(x) {
                        let j = choose|j: int|
                            0 <= j < before.len() + 1 && before.push(list@[k as int]@)[j] == x;
                        if j < before.len() {
                            assert(before[j] == x);
                        }
                    }
                    if before.contains(x) {
                        let j = choose|j: int| 0 <= j < before.len() && before[j] == x;
                        assert(before.push(list@[k as int]@)[j] == x);
                    }
                    if x == list@[k as int]@ {
                        assert(before.push(list@[k as int]@)[before.len() as int] == x);
                    }
                }
            }
            assert(lk.push(list@[k as int]@).contains(x) <==> (lk.contains(x) || x
                == list@[k as int]@)) by {
                if lk.push(list@[k as int]@).contains(x) {
                    let j = choose|j: int| 0 <= j < lk.len() + 1 && lk.push(list@[k as int]@)[j] == x;
                    if j < lk.len() {
                        assert(lk[j] == x);
                    }
                }
                if lk.contains(x) {
                    let j = choose|j: int| 0 <= j < lk.len() && lk[j] == x;
                    assert(lk.push(list@[k as int]@)[j] == x);
                }
                if x == list@[k as int]@ {
                    assert(lk.push(list@[k as int]@)[lk.len() as int] == x);
                }
            }
        }
        k = k + 1;
    }
    assert(texts(list@).take(k as int) =~= texts(list@));
}

/// Every vertex that `start` reaches by one or more edges, each once.
pub fn reach_set(adj: &Adjacency, start: &String) -> (r: Vec<String>)
    requires
        well_keyed(adj_view(adj@)),
    ensures
        texts(r@).no_duplicates(),
        forall|x: Seq<char>| #[trigger]
            texts(r@).contains(x) <==> reaches(edges_of(adj_view(adj@)), start@, x),
{
    let ghost a = adj_view(adj@);
    let ghost rel = edges_of(a);
    let mut found: Vec<String> = Vec::new();
    match lookup(adj, start) {
        Some(si) => {
            add_missing(&mut found, &adj[si].1);
            assert forall|y: Seq<char>| #[trigger] rel(start@, y) implies texts(found@).contains(
                y,
            ) by {
                lemma_key_index(a, si as int, start@, y);
                assert(a[si as int].1 == texts(adj@[si as int].1@));
            }
            assert forall|x: Seq<char>| #[trigger] texts(found@).contains(x) implies reaches(
                rel,
                start@,
                x,
            ) && keys(a).contains(x) by {
                lemma_key_index(a, si as int, start@, x);
                assert(a[si as int].1 == texts(adj@[si as int].1@));
                assert(rel(start@, x));
                lemma_edge_reaches(rel, start@, x);
                assert(a[si as int].1.contains(x));
            }
        },
        None => {
            assert forall|y: Seq<char>| #[trigger] rel(start@, y) implies texts(found@).contains(
                y,
            ) by {
                if has_edge(a, start@, y) {
                    let j = choose|j: int|
                        0 <= j < a.len() && #[trigger] a[j].0 == start@ && a[j].1.contains(y);
                    assert(adj@[j].0@ == a[j].0);
                }
            }
            assert(texts(found@) =~= Seq::<Seq<char>>::empty());
        },
    }
    proof {
        lemma_bounded_by_keys(texts(found@), keys(a));
    }
    let mut i: usize = 0;
    while i < found.len()
        invariant
            a == adj_view(adj@),
            rel == edges_of(a),
            well_keyed(a),
            i <= found@.len() <= a.len(),
            a.len() == adj@.len(),
            texts(found@).no_duplicates(),
            forall|x: Seq<char>| #[trigger]
                texts(found@).contains(x) ==> reaches(rel, start@, x) && keys(a).contains(x),
            forall|y: Seq<char>| #[trigger] rel(start@, y) ==> texts(found@).contains(y),
            forall|j: int, y: Seq<char>|
                0 <= j < i && #[trigger] rel(texts(found@)[j], y) ==> texts(found@).contains(y),
        decreases a.len() - i,
    {
        let ghost f_before = texts(found@);
        let x = copy_string(&found[i]);
        assert(f_before.contains(x@)) by {
            assert(f_before[i as int] == x@);
        }
        match lookup(adj, &x) {
            Some(xi) => {
                add_missing(&mut found, &adj[xi].1);
                let ghost fnow = texts(found@);
                assert(a[xi as int].1 == texts(adj@[xi as int].1@));
                assert forall|j: int| 0 <= j < f_before.len() implies #[trigger] fnow[j]
                    == f_before[j] by {}
                assert forall|y: Seq<char>| #[trigger] fnow.contains(y) implies reaches(
                    rel,
                    start@,
                    y,
                ) && keys(a).contains(y) by {
                    if !f_before.contains(y) {
                        lemma_key_index(a, xi as int, x@, y);
                        assert(rel(x@, y));
                        lemma_reaches_extend(rel, start@, x@, y);
                        assert(a[xi as int].1.contains(y));
                    }
                }
                assert forall|y: Seq<char>| #[trigger] rel(x@, y) implies fnow.contains(y) by {
                    lemma_key_index(a, xi as int, x@, y);
                }
                assert forall|y: Seq<char>| #[trigger] rel(start@, y) implies fnow.contains(y) by {
                    assert(f_before.contains(y));
                }
                assert forall|j: int, y: Seq<char>|
                    0 <= j < i + 1 && #[trigger] rel(fnow[j], y) implies fnow.contains(y) by {
                    if j < i {
                        assert(fnow[j] == f_before[j]);
                        assert(f_before.contains(y));
                    } else {
                        assert(fnow[j] == x@);
                    }
                }
                proof {
                    lemma_bounded_by_keys(fnow, keys(a));
                }
            },
            None => {
                assert forall|j: int, y: Seq<char>|
                    0 <= j < i + 1 && #[trigger] rel(texts(found@)[j], y) implies texts(
                    found@,
                ).contains(y) by {
                    if j == i && has_edge(a, x@, y) {
                        let k = choose|k: int|
                            0 <= k < a.len() && #[trigger] a[k].0 == x@ && a[k].1.contains(y);
                        assert(adj@[k].0@ == a[k].0);
                    }
                }
            },
        }
        i = i + 1;
    }
    proof {
        let f = texts(found@);
        assert forall|b: Seq<char>| reaches(rel, start@, b) implies #[trigger] f.contains(b) by {
            let s = |v: Seq<char>| f.contains(v);
            assert forall|x: Seq<char>, y: Seq<char>| s(x) && #[trigger] rel(x, y) implies s(y) by {
                let j = choose|j: int| 0 <= j < f.len() && f[j] == x;
                assert(rel(f[j], y));
            }
            lemma_closed_holds_reach(rel, s, start@, b);
        }
    }
    found
}

/// Whether some vertex of `sources` has an edge to `y`.
pub fn edge_from_any(adj: &Adjacency, sources: &Vec<String>, y: &String) -> (b: bool)
    requires
        keys(adj_view(adj@)).no_duplicates(),
    ensures
        b == exists|x: Seq<char>| texts(sources@).contains(x) && #[trigger] has_edge(
            adj_view(adj@),
            x,
            y@,
        ),
{
    let ghost a = adj_view(adj@);
    let mut t: usize = 0;
    while t < sources.len()
        invariant
            keys(a).no_duplicates(),
            a == adj_view(adj@),
            t <= sources@.len(),
            forall|m: int| 0 <= m < t ==> !has_edge(a, #[trigger] texts(sources@)[m], y@),
        decreases sources@.len() - t,
    {
        let ghost x = sources@[t as int]@;
        assert(texts(sources@)[t as int] == x);
        match lookup(adj, &sources[t]) {
            Some(ix) => {
                proof {
                    lemma_key_index(a, ix as int, x, y@);
                    assert(a[ix as int].1 == texts(adj@[ix as int].1@));
                }
                if vec_contains_text(&adj[ix].1, y) {
                    assert(texts(sources@).contains(x));
                    assert(has_edge(a, x, y@));
                    return true;
                }
            },
            None => {
                assert(!has_edge(a, x, y@));
            },
        }
        t = t + 1;
    }
    assert forall|x: Seq<char>| texts(sources@).contains(x) implies !#[trigger] has_edge(
        a,
        x,
        y@,
    ) by {
        let m = choose|m: int| 0 <= m < texts(sources@).len() && texts(sources@)[m] == x;
    }
    false
}

} // verus!
