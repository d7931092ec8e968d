//! The in-memory knowledge base: its nodes and the indexes derived from them.
use vstd::prelude::*;

use crate::config::ProjectConfig;
use crate::error::{Error, ErrorSpec};
use crate::graph::{
    adj_view, edges_of, has_edge, keys, lookup, reach_set, reaches, well_keyed,
    Adjacency,
};
use crate::model::{dep_ids, Node, NodeSpec};
use crate::text::{copy_string, same_text, texts, vec_contains_text};
use crate::error::error_text;

pub mod edge;
pub mod laws;
pub mod node;
pub mod scaffold;
pub mod staleness;
pub mod validation;
pub mod watcher;

verus! {

// ── The graph of a node sequence ─────────────────────────

/// The mathematical values of a sequence of nodes.
pub open spec fn views(v: Seq<Node>) -> Seq<NodeSpec> {
    v.map_values(|n: Node| n@)
}

/// The IDs of a sequence of nodes, in order.
pub open spec fn node_ids(nv: Seq<NodeSpec>) -> Seq<Seq<char>> {
    nv.map_values(|n: NodeSpec| n.frontmatter.id)
}

/// Node `a` lists `b` among its dependencies.
pub open spec fn lists(nv: Seq<NodeSpec>, a: Seq<char>, b: Seq<char>) -> bool {
    exists|i: int|
        0 <= i < nv.len() && #[trigger] nv[i].frontmatter.id == a && dep_ids(
            nv[i].frontmatter,
        ).contains(b)
}

/// One of the first `n` nodes is `a` and lists `b`.
pub open spec fn lists_before(nv: Seq<NodeSpec>, n: int, a: Seq<char>, b: Seq<char>) -> bool {
    exists|i: int|
        0 <= i < n && #[trigger] nv[i].frontmatter.id == a && dep_ids(nv[i].frontmatter).contains(b)
}

/// The dependency graph: an edge from each node to each existing node it
/// lists as a dependency.
pub open spec fn depends_edge(nv: Seq<NodeSpec>) -> spec_fn(Seq<char>, Seq<char>) -> bool {
    |a: Seq<char>, b: Seq<char>| lists(nv, a, b) && node_ids(nv).contains(b)
}

/// `d` maps each listed dependency ID to the nodes that list it.
pub open spec fn dependents_ok(d: Seq<(Seq<char>, Seq<Seq<char>>)>, nv: Seq<NodeSpec>) -> bool {
    &&& keys(d).no_duplicates()
    &&& forall|x: Seq<char>, y: Seq<char>| #[trigger] has_edge(d, x, y) <==> lists(nv, y, x)
    &&& forall|i: int| 0 <= i < d.len() ==> d[i].1.len() > 0 && d[i].1.no_duplicates()
}

/// `t` maps each node ID, in node order, to the IDs it reaches in the
/// dependency graph.
pub open spec fn closure_ok(t: Seq<(Seq<char>, Seq<Seq<char>>)>, nv: Seq<NodeSpec>) -> bool {
    &&& keys(t) == node_ids(nv)
    &&& forall|i: int|
        0 <= i < t.len() ==> (#[trigger] t[i]).1.no_duplicates() && forall|x: Seq<char>|
            t[i].1.contains(x) <==> reaches(depends_edge(nv), t[i].0, x)
}

/// Options for laying out a new project.
#[derive(Debug, Clone, Copy, Default)]
pub struct InitOptions {
    /// Add `.knowledgebase/hooks/validate.sh` (a git pre-commit hook).
    pub include_git_hook: bool,
    /// Add `.github/workflows/validate.yaml` (a CI workflow).
    pub include_github_workflow: bool,
}

/// A warning produced while loading a project (e.g. a malformed node file).
#[derive(Debug, Clone)]
pub struct LoadWarning {
    pub path: String,
    pub message: String,
}

/// In-memory representation of an open knowledge base project.
#[derive(Debug)]
pub struct KnowledgeBase {
    /// The project root directory.
    root: String,
    /// Project-level configuration.
    config: ProjectConfig,
    /// All loaded nodes; no two share an ID.
    nodes: Vec<Node>,
    /// For each listed dependency ID, the nodes that list it.
    dependents: Adjacency,
    /// For each node ID, every node it transitively depends on.
    dependencies: Adjacency,
    /// IDs met more than once while loading, with the file that repeated it.
    duplicate_ids: Vec<(String, String)>,
}

/// Index of the node with ID `id`, if any.
pub fn find_node(nodes: &Vec<Node>, id: &String) -> (r: Option<usize>)
    ensures
        r matches Some(i) ==> i < nodes@.len() && nodes@[i as int].frontmatter.id@ == id@,
        r is None ==> !node_ids(views(nodes@)).contains(id@),
{
    let mut i: usize = 0;
    while i < nodes.len()
        invariant
            i <= nodes@.len(),
            forall|j: int| 0 <= j < i ==> nodes@[j].frontmatter.id@ != id@,
        decreases nodes@.len() - i,
    {
        if same_text(&nodes[i].frontmatter.id, id) {
            return Some(i);
        }
        i = i + 1;
    }
    proof {
        if node_ids(views(nodes@)).contains(id@) {
            let j = choose|j: int|
                0 <= j < node_ids(views(nodes@)).len() && node_ids(views(nodes@))[j] == id@;
            assert(nodes@[j].frontmatter.id@ == id@);
        }
    }
    None
}

proof fn lemma_unique_index(nv: Seq<NodeSpec>, i: int, j: int)
    requires
        node_ids(nv).no_duplicates(),
        0 <= i < nv.len(),
        0 <= j < nv.len(),
        nv[i].frontmatter.id == nv[j].frontmatter.id,
    ensures
        i == j,
{
    assert(node_ids(nv)[i] == node_ids(nv)[j]);
}

proof fn lemma_lists_at(nv: Seq<NodeSpec>, i: int, a: Seq<char>, b: Seq<char>)
    requires
        node_ids(nv).no_duplicates(),
        0 <= i < nv.len(),
        nv[i].frontmatter.id == a,
    ensures
        lists(nv, a, b) <==> dep_ids(nv[i].frontmatter).contains(b),
{
    if lists(nv, a, b) {
        let j = choose|j: int|
            0 <= j < nv.len() && #[trigger] nv[j].frontmatter.id == a && dep_ids(
                nv[j].frontmatter,
            ).contains(b);
        lemma_unique_index(nv, i, j);
    }
}

/// The IDs that `nodes@[i]` lists and that belong to existing nodes.
fn existing_deps(nodes: &Vec<Node>, i: usize) -> (r: Vec<String>)
    requires
        i < nodes@.len(),
    ensures
        forall|x: Seq<char>| #[trigger]
            texts(r@).contains(x) <==> (dep_ids(nodes@[i as int]@.frontmatter).contains(x)
                && node_ids(views(nodes@)).contains(x)),
{
    let ghost nv = views(nodes@);
    let deps = &nodes[i].frontmatter.dependencies;
    let ghost dv = dep_ids(nodes@[i as int]@.frontmatter);
    let mut r: Vec<String> = Vec::new();
    let mut j: usize = 0;
    while j < deps.len()
        invariant
            nv == views(nodes@),
            i < nodes@.len(),
            deps@ == nodes@[i as int].frontmatter.dependencies@,
            dv == dep_ids(nodes@[i as int]@.frontmatter),
            dv.len() == deps@.len(),
            j <= deps@.len(),
            forall|x: Seq<char>| #[trigger]
                texts(r@).contains(x) <==> (dv.take(j as int).contains(x) && node_ids(
                    nv,
                ).contains(x)),
        decreases deps@.len() - j,
    {
        let ghost before = texts(r@);
        let ghost dj = dv.take(j as int);
        assert(dv[j as int] == deps@[j as int].node_id@);
        assert(dv.take(j + 1) =~= dj.push(dv[j as int]));
        let found = find_node(nodes, &deps[j].node_id);
        if found.is_some() {
            r.push(copy_string(&deps[j].node_id));
            assert(texts(r@) =~= before.push(dv[j as int]));
            assert(node_ids(nv)[found.unwrap() as int] == dv[j as int]);
        }
        assert forall|x: Seq<char>| #[trigger]
            texts(r@).contains(x) <==> (dv.take(j + 1).contains(x) && node_ids(nv).contains(x)) by {
            crate::text::lemma_push_contains(dj, dv[j as int], x);
            if texts(r@).len() > before.len() {
                crate::text::lemma_push_contains(before, dv[j as int], x);
            }
        }
        j = j + 1;
    }
    assert(dv.take(j as int) =~= dv);
    r
}

/// The dependency graph as an adjacency list keyed by node ID, in node order.
fn forward_adjacency(nodes: &Vec<Node>) -> (f: Adjacency)
    requires
        node_ids(views(nodes@)).no_duplicates(),
    ensures
        well_keyed(adj_view(f@)),
        keys(adj_view(f@)) == node_ids(views(nodes@)),
        edges_of(adj_view(f@)) == depends_edge(views(nodes@)),
{
    let ghost nv = views(nodes@);
    let mut f: Adjacency = Vec::new();
    let mut i: usize = 0;
    while i < nodes.len()
        invariant
            nv == views(nodes@),
            node_ids(nv).no_duplicates(),
            i <= nodes@.len(),
            f@.len() == i,
            forall|k: int| 0 <= k < i ==> #[trigger] adj_view(f@)[k].0 == nv[k].frontmatter.id,
            forall|k: int, x: Seq<char>|
                0 <= k < i ==> (#[trigger] adj_view(f@)[k].1.contains(x) <==> (dep_ids(
                    nv[k].frontmatter,
                ).contains(x) && node_ids(nv).contains(x))),
        decreases nodes@.len() - i,
    {
        let succ = existing_deps(nodes, i);
        let ghost f0 = f@;
        let ghost entry = (nodes@[i as int].frontmatter.id@, texts(succ@));
        f.push((copy_string(&nodes[i].frontmatter.id), succ));
        assert(adj_view(f@) =~= adj_view(f0).push(entry));
        i = i + 1;
    }
    let ghost a = adj_view(f@);
    assert(keys(a) =~= node_ids(nv));
    assert forall|k: int, y: Seq<char>| 0 <= k < a.len() && #[trigger] a[k].1.contains(y) implies keys(
        a,
    ).contains(y) by {}
    assert(edges_of(a) =~= depends_edge(nv)) by {
        assert forall|x: Seq<char>, y: Seq<char>| #[trigger] has_edge(a, x, y) <==> (lists(nv, x, y)
            && node_ids(nv).contains(y)) by {
            if has_edge(a, x, y) {
                let k = choose|k: int| 0 <= k < a.len() && #[trigger] a[k].0 == x && a[k].1.contains(y);
                lemma_lists_at(nv, k, x, y);
            }
            if lists(nv, x, y) && node_ids(nv).contains(y) {
                let k = choose|k: int|
                    0 <= k < nv.len() && #[trigger] nv[k].frontmatter.id == x && dep_ids(
                        nv[k].frontmatter,
                    ).contains(y);
                assert(a[k].0 == x && a[k].1.contains(y));
            }
        }
    }
    f
}

/// The transitive-dependency index of `nodes`.
fn closure_index(nodes: &Vec<Node>) -> (t: Adjacency)
    requires
        node_ids(views(nodes@)).no_duplicates(),
    ensures
        closure_ok(adj_view(t@), views(nodes@)),
{
    let ghost nv = views(nodes@);
    let f = forward_adjacency(nodes);
    let mut t: Adjacency = Vec::new();
    let mut i: usize = 0;
    while i < nodes.len()
        invariant
            nv == views(nodes@),
            well_keyed(adj_view(f@)),
            edges_of(adj_view(f@)) == depends_edge(nv),
            i <= nodes@.len(),
            t@.len() == i,
            forall|k: int| 0 <= k < i ==> #[trigger] adj_view(t@)[k].0 == nv[k].frontmatter.id,
            forall|k: int|
                0 <= k < i ==> (#[trigger] adj_view(t@)[k]).1.no_duplicates() && forall|x: Seq<char>|
                    adj_view(t@)[k].1.contains(x) <==> reaches(
                        depends_edge(nv),
                        adj_view(t@)[k].0,
                        x,
                    ),
        decreases nodes@.len() - i,
    {
        let r = reach_set(&f, &nodes[i].frontmatter.id);
        let ghost t0 = t@;
        let ghost entry = (nodes@[i as int].frontmatter.id@, texts(r@));
        t.push((copy_string(&nodes[i].frontmatter.id), r));
        assert(adj_view(t@) =~= adj_view(t0).push(entry));
        i = i + 1;
    }
    assert(keys(adj_view(t@)) =~= node_ids(nv));
    t
}

/// Records that `dependent` lists `dep`.
fn add_dependent(d: &mut Adjacency, dep: &String, dependent: &String)
    requires
        keys(adj_view(old(d)@)).no_duplicates(),
        forall|i: int|
            0 <= i < old(d)@.len() ==> adj_view(old(d)@)[i].1.len() > 0 && adj_view(
                old(d)@,
            )[i].1.no_duplicates(),
    ensures
        keys(adj_view(final(d)@)).no_duplicates(),
        forall|i: int|
            0 <= i < final(d)@.len() ==> adj_view(final(d)@)[i].1.len() > 0 && adj_view(
                final(d)@,
            )[i].1.no_duplicates(),
        forall|x: Seq<char>, y: Seq<char>| #[trigger]
            has_edge(adj_view(final(d)@), x, y) <==> (has_edge(adj_view(old(d)@), x, y) || (x
                == dep@ && y == dependent@)),
{
    let ghost a0 = adj_view(d@);
    match lookup(d, dep) {
        Some(k) => {
            if !vec_contains_text(&d[k].1, dependent) {
                let mut list = crate::text::copy_strings(&d[k].1);
                let ghost l0 = texts(list@);
                list.push(copy_string(dependent));
                assert(texts(list@) =~= l0.push(dependent@));
                let key = copy_string(&d[k].0);
                let ghost d0 = d@;
                let ghost newl = a0[k as int].1.push(dependent@);
                assert(a0[k as int].1 == texts(d0[k as int].1@));
                d.set(k, (key, list));
                let ghost a1 = adj_view(d@);
                assert(a1 =~= a0.update(k as int, (a0[k as int].0, newl)));
                assert(keys(a1) =~= keys(a0));
                assert(!a0[k as int].1.contains(dependent@));
                assert forall|i: int| 0 <= i < a1.len() implies a1[i].1.len() > 0
                    && a1[i].1.no_duplicates() by {
                    if i == k {
                        assert forall|p: int, q: int|
                            0 <= p < q < newl.len() implies newl[p] != newl[q] by {
                            if q == a0[i].1.len() {
                                assert(newl[p] == a0[i].1[p]);
                            }
                        }
                    }
                }
                assert forall|x: Seq<char>, y: Seq<char>| #[trigger]
                    has_edge(a1, x, y) <==> (has_edge(a0, x, y) || (x == dep@ && y
                        == dependent@)) by {
                    crate::text::lemma_push_contains(a0[k as int].1, dependent@, y);
                    if has_edge(a1, x, y) {
                        let j = choose|j: int| 0 <= j < a1.len() && #[trigger] a1[j].0 == x && a1[j].1.contains(y);
                        if j != k {
                            assert(a0[j].0 == x && a0[j].1.contains(y));
                        }
                    }
                    if has_edge(a0, x, y) {
                        let j = choose|j: int| 0 <= j < a0.len() && #[trigger] a0[j].0 == x && a0[j].1.contains(y);
                        if j != k {
                            assert(a1[j].0 == x && a1[j].1.contains(y));
                        } else {
                            assert(a1[j].0 == x && a1[j].1.contains(y));
                        }
                    }
                    if x == dep@ && y == dependent@ {
                        assert(a1[k as int].0 == x && a1[k as int].1.contains(y));
                    }
                }
            } else {
                assert forall|x: Seq<char>, y: Seq<char>| (x == dep@ && y == dependent@) implies #[trigger] has_edge(a0, x, y) by {
                    assert(a0[k as int].0 == x && a0[k as int].1.contains(y));
                }
            }
        },
        None => {
            let mut list: Vec<String> = Vec::new();
            list.push(copy_string(dependent));
            assert(texts(list@) =~= seq![dependent@]);
            let ghost d0 = d@;
            d.push((copy_string(dep), list));
            let ghost a1 = adj_view(d@);
            assert(d@ == d0.push(d@.last()));
            assert(a1 =~= a0.push((dep@, seq![dependent@])));
            assert(keys(a1) =~= keys(a0).push(dep@));
            assert(!keys(a0).contains(dep@)) by {
                if keys(a0).contains(dep@) {
                    let j = choose|j: int| 0 <= j < keys(a0).len() && keys(a0)[j] == dep@;
                    assert(d@[j].0@ == dep@);
                }
            }
            assert forall|p: int, q: int| 0 <= p < q < keys(a1).len() implies keys(a1)[p] != keys(
                a1,
            )[q] by {
                if q == keys(a0).len() {
                    assert(keys(a0).contains(keys(a1)[p]) ==> keys(a1)[p] != dep@);
                    assert(keys(a0)[p] == keys(a1)[p]);
                }
            }
            assert(seq![dependent@].no_duplicates());
            assert forall|x: Seq<char>, y: Seq<char>| #[trigger]
                has_edge(a1, x, y) <==> (has_edge(a0, x, y) || (x == dep@ && y == dependent@)) by {
                if has_edge(a1, x, y) {
                    let j = choose|j: int| 0 <= j < a1.len() && #[trigger] a1[j].0 == x && a1[j].1.contains(y);
                    if j < a0.len() {
                        assert(a0[j].0 == x && a0[j].1.contains(y));
                    } else {
                        assert(seq![dependent@].contains(y) ==> y == dependent@);
                    }
                }
                if has_edge(a0, x, y) {
                    let j = choose|j: int| 0 <= j < a0.len() && #[trigger] a0[j].0 == x && a0[j].1.contains(y);
                    assert(a1[j].0 == x && a1[j].1.contains(y));
                }
                if x == dep@ && y == dependent@ {
                    assert(a1[a0.len() as int].1[0] == y);
                    assert(a1[a0.len() as int].0 == x && a1[a0.len() as int].1.contains(y));
                }
            }
        },
    }
}

/// The reverse dependency index of `nodes`.
fn dependents_index(nodes: &Vec<Node>) -> (d: Adjacency)
    ensures
        dependents_ok(adj_view(d@), views(nodes@)),
{
    let ghost nv = views(nodes@);
    let mut d: Adjacency = Vec::new();
    let mut i: usize = 0;
    while i < nodes.len()
        invariant
            nv == views(nodes@),
            i <= nodes@.len(),
            keys(adj_view(d@)).no_duplicates(),
            forall|k: int|
                0 <= k < d@.len() ==> adj_view(d@)[k].1.len() > 0 && adj_view(
                    d@,
                )[k].1.no_duplicates(),
            forall|x: Seq<char>, y: Seq<char>| #[trigger]
                has_edge(adj_view(d@), x, y) <==> lists_before(nv, i as int, y, x),
        decreases nodes@.len() - i,
    {
        let deps = &nodes[i].frontmatter.dependencies;
        let ghost dv = dep_ids(nv[i as int].frontmatter);
        let ghost me = nv[i as int].frontmatter.id;
        let mut j: usize = 0;
        while j < deps.len()
            invariant
                nv == views(nodes@),
                i < nodes@.len(),
                deps@ == nodes@[i as int].frontmatter.dependencies@,
                dv == dep_ids(nv[i as int].frontmatter),
                me == nodes@[i as int].frontmatter.id@,
                dv.len() == deps@.len(),
                j <= deps@.len(),
                keys(adj_view(d@)).no_duplicates(),
                forall|k: int|
                    0 <= k < d@.len() ==> adj_view(d@)[k].1.len() > 0 && adj_view(
                        d@,
                    )[k].1.no_duplicates(),
                forall|x: Seq<char>, y: Seq<char>| #[trigger]
                    has_edge(adj_view(d@), x, y) <==> (lists_before(nv, i as int, y, x) || (y
                        == me && dv.take(j as int).contains(x))),
            decreases deps@.len() - j,
        {
            let ghost dj = dv.take(j as int);
            assert(dv[j as int] == deps@[j as int].node_id@);
            assert(dv.take(j + 1) =~= dj.push(dv[j as int]));
            add_dependent(&mut d, &deps[j].node_id, &nodes[i].frontmatter.id);
            assert forall|x: Seq<char>, y: Seq<char>| #[trigger]
                has_edge(adj_view(d@), x, y) <==> (lists_before(nv, i as int, y, x) || (y == me
                    && dv.take(j + 1).contains(x))) by {
                crate::text::lemma_push_contains(dj, dv[j as int], x);
            }
            j = j + 1;
        }
        assert(dv.take(j as int) =~= dv);
        assert forall|x: Seq<char>, y: Seq<char>| #[trigger]
            has_edge(adj_view(d@), x, y) <==> lists_before(nv, i + 1, y, x) by {
            if lists_before(nv, i + 1, y, x) {
                let k = choose|k: int|
                    0 <= k < i + 1 && #[trigger] nv[k].frontmatter.id == y && dep_ids(
                        nv[k].frontmatter,
                    ).contains(x);
                if k < i {
                    assert(lists_before(nv, i as int, y, x));
                }
            }
            if y == me && dv.contains(x) {
                assert(nv[i as int].frontmatter.id == y);
            }
            if lists_before(nv, i as int, y, x) {
                let k = choose|k: int|
                    0 <= k < i && #[trigger] nv[k].frontmatter.id == y && dep_ids(
                        nv[k].frontmatter,
                    ).contains(x);
                assert(0 <= k < i + 1);
            }
        }
        i = i + 1;
    }
    assert forall|x: Seq<char>, y: Seq<char>| #[trigger] has_edge(adj_view(d@), x, y) <==> lists(
        nv,
        y,
        x,
    ) by {
        if lists(nv, y, x) {
            let k = choose|k: int|
                0 <= k < nv.len() && #[trigger] nv[k].frontmatter.id == y && dep_ids(
                    nv[k].frontmatter,
                ).contains(x);
            assert(lists_before(nv, nv.len() as int, y, x));
        }
    }
    d
}

// ── Node lookup in a node sequence ───────────────────────

/// Whether some node has ID `id`.
pub open spec fn has_node(nv: Seq<NodeSpec>, id: Seq<char>) -> bool {
    node_ids(nv).contains(id)
}

/// The position of the node with ID `id` (meaningful when there is one).
pub open spec fn index_of(nv: Seq<NodeSpec>, id: Seq<char>) -> int {
    choose|i: int| 0 <= i < nv.len() && nv[i].frontmatter.id == id
}

/// `nv` with `n` put in place of the node that has its ID, or added last.
pub open spec fn upsert(nv: Seq<NodeSpec>, n: NodeSpec) -> Seq<NodeSpec> {
    if has_node(nv, n.frontmatter.id) {
        nv.update(index_of(nv, n.frontmatter.id), n)
    } else {
        nv.push(n)
    }
}

/// `index_of` finds the node with the ID, when there is one.
pub proof fn lemma_index_of(nv: Seq<NodeSpec>, id: Seq<char>)
    requires
        has_node(nv, id),
    ensures
        0 <= index_of(nv, id) < nv.len(),
        nv[index_of(nv, id)].frontmatter.id == id,
{
    let j = choose|j: int| 0 <= j < node_ids(nv).len() && node_ids(nv)[j] == id;
    assert(nv[j].frontmatter.id == id);
}

proof fn lemma_index_of_unique(nv: Seq<NodeSpec>, i: int)
    requires
        node_ids(nv).no_duplicates(),
        0 <= i < nv.len(),
    ensures
        has_node(nv, nv[i].frontmatter.id),
        index_of(nv, nv[i].frontmatter.id) == i,
{
    assert(node_ids(nv)[i] == nv[i].frontmatter.id);
    lemma_index_of(nv, nv[i].frontmatter.id);
    lemma_unique_index(nv, i, index_of(nv, nv[i].frontmatter.id));
}

// ── The knowledge base ───────────────────────────────────

impl KnowledgeBase {
    /// The nodes, in their stored order.
    pub closed spec fn nodes_view(&self) -> Seq<NodeSpec> {
        views(self.nodes@)
    }

    /// The project root.
    pub closed spec fn root_view(&self) -> Seq<char> {
        self.root@
    }

    /// The project configuration.
    pub closed spec fn config_view(&self) -> ProjectConfig {
        self.config
    }

    /// The IDs met more than once while loading, each with the file that
    /// repeated it.
    pub closed spec fn duplicates_view(&self) -> Seq<(Seq<char>, Seq<char>)> {
        self.duplicate_ids@.map_values(|e: (String, String)| (e.0@, e.1@))
    }

    /// The reverse dependency index: each listed dependency ID with the
    /// nodes that list it.
    pub closed spec fn dependents_view(&self) -> Seq<(Seq<char>, Seq<Seq<char>>)> {
        adj_view(self.dependents@)
    }

    /// The transitive-dependency index: each node ID, in node order, with
    /// the IDs it reaches.
    pub closed spec fn closure_view(&self) -> Seq<(Seq<char>, Seq<Seq<char>>)> {
        adj_view(self.dependencies@)
    }

    /// The stored indexes agree with the nodes, and node IDs are distinct.
    /// Every knowledge base satisfies this at all times.
    #[verifier::type_invariant]
    spec fn wf(&self) -> bool {
        &&& node_ids(self.nodes_view()).no_duplicates()
        &&& dependents_ok(adj_view(self.dependents@), self.nodes_view())
        &&& closure_ok(adj_view(self.dependencies@), self.nodes_view())
    }

    /// An empty knowledge base rooted at `root`.
    pub fn new(root: String, config: ProjectConfig) -> (kb: KnowledgeBase)
        ensures
            kb.nodes_view() == Seq::<NodeSpec>::empty(),
            kb.root_view() == root@,
            kb.config_view() == config,
            kb.duplicates_view() == Seq::<(Seq<char>, Seq<char>)>::empty(),
    {
        let nodes: Vec<Node> = Vec::new();
        let dependents = dependents_index(&nodes);
        assert(node_ids(views(nodes@)) =~= Seq::<Seq<char>>::empty());
        let dependencies = closure_index(&nodes);
        let kb = KnowledgeBase {
            root,
            config,
            nodes,
            dependents,
            dependencies,
            duplicate_ids: Vec::new(),
        };
        assert(kb.nodes_view() =~= Seq::<NodeSpec>::empty());
        assert(kb.duplicates_view() =~= Seq::<(Seq<char>, Seq<char>)>::empty());
        kb
    }

    /// Replaces the node sequence and recomputes both indexes.
    fn set_nodes(&mut self, nodes: Vec<Node>)
        requires
            node_ids(views(nodes@)).no_duplicates(),
        ensures
            final(self).nodes_view() == views(nodes@),
            final(self).root_view() == old(self).root_view(),
            final(self).config_view() == old(self).config_view(),
            final(self).duplicates_view() == old(self).duplicates_view(),
    {
        proof {
            use_type_invariant(&*self);
        }
        let dependents = dependents_index(&nodes);
        let dependencies = closure_index(&nodes);
        let mut root = String::new();
        std::mem::swap(&mut root, &mut self.root);
        let mut config = ProjectConfig::default();
        std::mem::swap(&mut config, &mut self.config);
        let mut duplicate_ids: Vec<(String, String)> = Vec::new();
        std::mem::swap(&mut duplicate_ids, &mut self.duplicate_ids);
        *self = KnowledgeBase { root, config, nodes, dependents, dependencies, duplicate_ids };
    }

    /// Rebuilds the reverse dependency index from the current nodes; the
    /// transitive-dependency index is left as it was.
    pub fn rebuild_adjacency(&mut self)
        ensures
            dependents_ok(final(self).dependents_view(), final(self).nodes_view()),
            final(self).closure_view() == old(self).closure_view(),
            final(self).nodes_view() == old(self).nodes_view(),
            final(self).root_view() == old(self).root_view(),
            final(self).config_view() == old(self).config_view(),
            final(self).duplicates_view() == old(self).duplicates_view(),
    {
        proof {
            use_type_invariant(&*self);
        }
        self.dependents = dependents_index(&self.nodes);
    }

    /// Rebuilds both the reverse dependency index and the
    /// transitive-dependency index from the current nodes.
    pub fn rebuild_indexes(&mut self)
        ensures
            dependents_ok(final(self).dependents_view(), final(self).nodes_view()),
            closure_ok(final(self).closure_view(), final(self).nodes_view()),
            final(self).nodes_view() == old(self).nodes_view(),
            final(self).root_view() == old(self).root_view(),
            final(self).config_view() == old(self).config_view(),
            final(self).duplicates_view() == old(self).duplicates_view(),
    {
        proof {
            use_type_invariant(&*self);
        }
        self.dependents = dependents_index(&self.nodes);
        self.dependencies = closure_index(&self.nodes);
    }

    /// The project root.
    pub fn root(&self) -> (r: &String)
        ensures
            r@ == self.root_view(),
    {
        &self.root
    }

    /// The project configuration.
    pub fn config(&self) -> (r: &ProjectConfig)
        ensures
            *r == self.config_view(),
    {
        &self.config
    }

    /// Replaces the project configuration.
    pub fn set_config(&mut self, config: ProjectConfig)
        ensures
            final(self).config_view() == config,
            final(self).nodes_view() == old(self).nodes_view(),
            final(self).root_view() == old(self).root_view(),
            final(self).duplicates_view() == old(self).duplicates_view(),
    {
        proof {
            use_type_invariant(&*self);
        }
        self.config = config;
    }

    /// All nodes, in stored order; no two share an ID.
    pub fn nodes(&self) -> (r: &Vec<Node>)
        ensures
            views(r@) == self.nodes_view(),
            node_ids(self.nodes_view()).no_duplicates(),
    {
        proof {
            use_type_invariant(&*self);
        }
        &self.nodes
    }

    /// The number of nodes.
    pub fn node_count(&self) -> (n: usize)
        ensures
            n == self.nodes_view().len(),
    {
        self.nodes.len()
    }

    /// Whether a node with ID `id` exists.
    pub fn contains_node(&self, id: &str) -> (b: bool)
        ensures
            b == has_node(self.nodes_view(), id@),
    {
        let key = String::from_str(id);
        match find_node(&self.nodes, &key) {
            Some(i) => {
                assert(node_ids(self.nodes_view())[i as int] == id@);
                true
            },
            None => false,
        }
    }

    /// The IDs met more than once while loading, with the repeating file.
    pub fn duplicate_ids(&self) -> (r: &Vec<(String, String)>)
        ensures
            r@.map_values(|e: (String, String)| (e.0@, e.1@)) == self.duplicates_view(),
    {
        &self.duplicate_ids
    }

    /// Returns the node with ID `id`.
    pub fn get_node(&self, id: &str) -> (r: Result<&Node, Error>)
        ensures
            match r {
                Ok(n) => has_node(self.nodes_view(), id@) && n@ == self.nodes_view()[index_of(
                    self.nodes_view(),
                    id@,
                )],
                Err(e) => !has_node(self.nodes_view(), id@) && e@ == ErrorSpec::NodeNotFound(id@),
            },
    {
        proof {
            use_type_invariant(&*self);
        }
        let key = String::from_str(id);
        match find_node(&self.nodes, &key) {
            Some(i) => {
                proof {
                    lemma_index_of_unique(self.nodes_view(), i as int);
                }
                Ok(&self.nodes[i])
            },
            None => Err(Error::NodeNotFound(key)),
        }
    }

    /// The IDs of the nodes that list `id` as a dependency, each once.
    pub fn dependents_of(&self, id: &str) -> (r: Vec<String>)
        ensures
            texts(r@).no_duplicates(),
            forall|y: Seq<char>| #[trigger] texts(r@).contains(y) <==> lists(self.nodes_view(), y, id@),
    {
        proof {
            use_type_invariant(&*self);
        }
        let key = String::from_str(id);
        let ghost d = adj_view(self.dependents@);
        match lookup(&self.dependents, &key) {
            Some(k) => {
                let r = crate::text::copy_strings(&self.dependents[k].1);
                assert(d[k as int].1 == texts(self.dependents@[k as int].1@));
                assert forall|y: Seq<char>| #[trigger] texts(r@).contains(y) <==> lists(
                    self.nodes_view(),
                    y,
                    id@,
                ) by {
                    assert(has_edge(d, id@, y) <==> lists(self.nodes_view(), y, id@));
                    if has_edge(d, id@, y) {
                        let j = choose|j: int| 0 <= j < d.len() && #[trigger] d[j].0 == id@ && d[j].1.contains(y);
                        assert(keys(d)[j] == keys(d)[k as int]);
                    }
                    if texts(r@).contains(y) {
                        assert(d[k as int].0 == id@ && d[k as int].1.contains(y));
                    }
                }
                r
            },
            None => {
                let r: Vec<String> = Vec::new();
                assert(texts(r@) =~= Seq::<Seq<char>>::empty());
                assert forall|y: Seq<char>| #[trigger] texts(r@).contains(y) <==> lists(
                    self.nodes_view(),
                    y,
                    id@,
                ) by {
                    assert(has_edge(d, id@, y) <==> lists(self.nodes_view(), y, id@));
                    if has_edge(d, id@, y) {
                        let j = choose|j: int| 0 <= j < d.len() && #[trigger] d[j].0 == id@ && d[j].1.contains(y);
                        assert(self.dependents@[j].0@ == id@);
                    }
                }
                r
            },
        }
    }

    /// The IDs of every node that `id` transitively depends on, each once.
    pub fn transitive_dependencies_of(&self, id: &str) -> (r: Vec<String>)
        ensures
            texts(r@).no_duplicates(),
            has_node(self.nodes_view(), id@) ==> forall|y: Seq<char>| #[trigger] texts(r@).contains(y)
                <==> reaches(depends_edge(self.nodes_view()), id@, y),
            !has_node(self.nodes_view(), id@) ==> r@.len() == 0,
    {
        proof {
            use_type_invariant(&*self);
        }
        let key = String::from_str(id);
        let ghost t = adj_view(self.dependencies@);
        match lookup(&self.dependencies, &key) {
            Some(k) => {
                assert(t[k as int].1 == texts(self.dependencies@[k as int].1@));
                assert(keys(t)[k as int] == id@);
                crate::text::copy_strings(&self.dependencies[k].1)
            },
            None => {
                proof {
                    if has_node(self.nodes_view(), id@) {
                        let j = choose|j: int| 0 <= j < node_ids(self.nodes_view()).len() && node_ids(self.nodes_view())[j] == id@;
                        assert(keys(t)[j] == id@);
                        assert(self.dependencies@[j].0@ == id@);
                    }
                }
                let r: Vec<String> = Vec::new();
                assert(texts(r@) =~= Seq::<Seq<char>>::empty());
                r
            },
        }
    }
}


// ── Loading ──────────────────────────────────────────────

/// What a pass over a project's node files produced.
pub struct LoadSpec {
    /// The nodes kept, in file order; the first file with a given ID wins.
    pub nodes: Seq<NodeSpec>,
    /// Each repeated ID with the file that repeated it.
    pub duplicates: Seq<(Seq<char>, Seq<char>)>,
    /// Each warning as (file, message).
    pub warnings: Seq<(Seq<char>, Seq<char>)>,
}

/// The warning for a file whose node ID was already loaded.
pub open spec fn duplicate_warning(id: Seq<char>) -> Seq<char> {
    "duplicate node ID `"@ + id + "`; keeping the node loaded first"@
}

/// The mathematical value of a parse outcome.
pub open spec fn parsed_view(r: Result<Node, Error>) -> Result<NodeSpec, ErrorSpec> {
    match r {
        Ok(n) => Ok(n@),
        Err(e) => Err(e@),
    }
}

/// The mathematical value of a sequence of (file, parse outcome) pairs.
pub open spec fn files_view(v: Seq<(String, Result<Node, Error>)>) -> Seq<(Seq<char>, Result<NodeSpec, ErrorSpec>)> {
    v.map_values(|f: (String, Result<Node, Error>)| (f.0@, parsed_view(f.1)))
}

/// The mathematical value of a sequence of load warnings.
pub open spec fn warnings_view(v: Seq<LoadWarning>) -> Seq<(Seq<char>, Seq<char>)> {
    v.map_values(|w: LoadWarning| (w.path@, w.message@))
}

/// One file's effect on a load: a parse error becomes a warning carrying
/// the error's text; a node whose ID was already loaded is recorded as a
/// duplicate and warned about; any other node is kept.
pub open spec fn load_step(acc: LoadSpec, path: Seq<char>, parsed: Result<NodeSpec, ErrorSpec>) -> LoadSpec {
    match parsed {
        Err(e) => LoadSpec {
            nodes: acc.nodes,
            duplicates: acc.duplicates,
            warnings: acc.warnings.push((path, error_text(e))),
        },
        Ok(n) => if has_node(acc.nodes, n.frontmatter.id) {
            LoadSpec {
                nodes: acc.nodes,
                duplicates: acc.duplicates.push((n.frontmatter.id, path)),
                warnings: acc.warnings.push((path, duplicate_warning(n.frontmatter.id))),
            }
        } else {
            LoadSpec { nodes: acc.nodes.push(n), duplicates: acc.duplicates, warnings: acc.warnings }
        },
    }
}

/// The effect of loading `files` in order.
pub open spec fn load_spec(files: Seq<(Seq<char>, Result<NodeSpec, ErrorSpec>)>) -> LoadSpec
    decreases files.len(),
{
    if files.len() == 0 {
        LoadSpec { nodes: Seq::empty(), duplicates: Seq::empty(), warnings: Seq::empty() }
    } else {
        load_step(load_spec(files.drop_last()), files.last().0, files.last().1)
    }
}

impl KnowledgeBase {
    /// Builds a knowledge base from the outcome of parsing each node file,
    /// given as (file path, parse result) in the order the files were read.
    /// Files that failed to parse, and files repeating an ID that an earlier
    /// file declared, become warnings; the repeats are also kept for
    /// validation to report.
    pub fn load(root: String, config: ProjectConfig, files: Vec<(String, Result<Node, Error>)>) -> (r: (
        KnowledgeBase,
        Vec<LoadWarning>,
    ))
        ensures
            r.0.root_view() == root@,
            r.0.config_view() == config,
            r.0.nodes_view() == load_spec(files_view(files@)).nodes,
            r.0.duplicates_view() == load_spec(files_view(files@)).duplicates,
            warnings_view(r.1@) == load_spec(files_view(files@)).warnings,
    {
        let ghost fv = files_view(files@);
        let mut nodes: Vec<Node> = Vec::new();
        let mut dups: Vec<(String, String)> = Vec::new();
        let mut warnings: Vec<LoadWarning> = Vec::new();
        let mut i: usize = 0;
        while i < files.len()
            invariant
                fv == files_view(files@),
                i <= files@.len(),
                node_ids(views(nodes@)).no_duplicates(),
                views(nodes@) == load_spec(fv.take(i as int)).nodes,
                dups@.map_values(|e: (String, String)| (e.0@, e.1@)) == load_spec(fv.take(i as int)).duplicates,
                warnings_view(warnings@) == load_spec(fv.take(i as int)).warnings,
            decreases files@.len() - i,
        {
            let ghost acc = load_spec(fv.take(i as int));
            assert(fv.take(i + 1).drop_last() =~= fv.take(i as int));
            assert(fv[i as int] == (files@[i as int].0@, parsed_view(files@[i as int].1)));
            let path = &files[i].0;
            match &files[i].1 {
                Err(e) => {
                    let ghost w0 = warnings@;
                    warnings.push(LoadWarning { path: copy_string(path), message: e.to_string() });
                    assert(warnings_view(warnings@) =~= warnings_view(w0).push((path@, error_text(e@))));
                },
                Ok(n) => {
                    let id = &n.frontmatter.id;
                    match find_node(&nodes, id) {
                        Some(k) => {
                            assert(node_ids(views(nodes@))[k as int] == id@);
                            let ghost d0 = dups@;
                            let ghost w0 = warnings@;
                            dups.push((copy_string(id), copy_string(path)));
                            let mut m = String::from_str("duplicate node ID `");
                            m.append(id.as_str());
                            m.append("`; keeping the node loaded first");
                            warnings.push(LoadWarning { path: copy_string(path), message: m });
                            assert(dups@.map_values(|e: (String, String)| (e.0@, e.1@)) =~= d0.map_values(
                                |e: (String, String)| (e.0@, e.1@),
                            ).push((id@, path@)));
                            assert(warnings_view(warnings@) =~= warnings_view(w0).push((path@, duplicate_warning(id@))));
                        },
                        None => {
                            let ghost n0 = nodes@;
                            nodes.push(n.copy());
                            assert(views(nodes@) =~= views(n0).push(n@));
                            assert(node_ids(views(nodes@)) =~= node_ids(views(n0)).push(id@));
                            assert forall|p: int, q: int| 0 <= p < q < node_ids(views(nodes@)).len() implies node_ids(views(nodes@))[p] != node_ids(views(nodes@))[q] by {
                                if q == n0.len() {
                                    assert(node_ids(views(n0))[p] == node_ids(views(nodes@))[p]);
                                }
                            }
                        },
                    }
                },
            }
            i = i + 1;
        }
        assert(fv.take(i as int) =~= fv);
        let mut kb = KnowledgeBase::new(root, config);
        kb.set_nodes(nodes);
        proof {
            use_type_invariant(&kb);
        }
        kb.duplicate_ids = dups;
        (kb, warnings)
    }
}

} // verus!
