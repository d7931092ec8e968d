//! Staleness propagation.
//!
//! When a node is edited its content has changed, so every downstream
//! dependent may be out of date:
//!
//! - propagation marks the transitive dependents of the edited node as
//!   `Stale`, recording the edited node as a stale source;
//! - axioms are never marked; a node that already records the edited node
//!   as a source keeps its record (it is not stamped twice) but still
//!   passes the wave on to its own dependents;
//! - reviewing a node makes it current without touching any other node;
//!   reviewing a node that is already current with no stale sources
//!   changes nothing.
use vstd::prelude::*;

use super::{
    find_node, has_node, index_of, lemma_index_of, lemma_index_of_unique, lists, node_ids, views,
    KnowledgeBase,
};
use crate::error::{Error, ErrorSpec};
use crate::graph::{
    adj_view, edge_from_any, edges_of, has_edge, keys, lemma_bounded_by_keys,
    lemma_reaches_within_some, lemma_within_monotone, lemma_within_none, lemma_within_step,
    reach_set, reaches, reaches_within, well_keyed, Adjacency,
};
use crate::model::{
    copy_dependencies, copy_opt_string, FrontmatterSpec, Node, NodeFrontmatter, NodeSpec, NodeType,
    StaleSource, StaleSourceSpec, Status, sources_view,
};
use crate::text::{copy_string, copy_strings, same_text, texts, vec_contains_text};

verus! {

/// The IDs of the stale sources a frontmatter records.
pub open spec fn source_ids(fm: FrontmatterSpec) -> Seq<Seq<char>> {
    fm.stale_sources.map_values(|s: StaleSourceSpec| s.node_id)
}

/// Node `y` carries a staleness wave on: it exists and is a deduction.
pub open spec fn passes_wave(nv: Seq<NodeSpec>, y: Seq<char>) -> bool {
    &&& has_node(nv, y)
    &&& nv[index_of(nv, y)].frontmatter.node_type == NodeType::Deduction
}

/// Node `y` may be marked stale because of `e`: it carries the wave and
/// does not yet record `e` as a stale source.
pub open spec fn eligible(nv: Seq<NodeSpec>, y: Seq<char>, e: Seq<char>) -> bool {
    &&& passes_wave(nv, y)
    &&& !source_ids(nv[index_of(nv, y)].frontmatter).contains(e)
}

/// The edges a propagation from `e` follows: from `x` (a node, or `e`) to
/// each deduction that lists `x`.
pub open spec fn stale_edge(nv: Seq<NodeSpec>, e: Seq<char>) -> spec_fn(Seq<char>, Seq<char>) -> bool {
    |x: Seq<char>, y: Seq<char>| (has_node(nv, x) || x == e) && lists(nv, y, x) && passes_wave(nv, y)
}

/// The wave from `e` reaches `y`: `y` is a downstream dependent of `e`
/// through deductions.
pub open spec fn reached_by(nv: Seq<NodeSpec>, e: Seq<char>, y: Seq<char>) -> bool {
    reaches(stale_edge(nv, e), e, y)
}

/// Propagation from `e` marks `y`: the wave reaches it and it does not yet
/// record `e`. A reached node that already records `e` keeps its record
/// and still passes the wave on.
pub open spec fn marked_by(nv: Seq<NodeSpec>, e: Seq<char>, y: Seq<char>) -> bool {
    reached_by(nv, e, y) && eligible(nv, y, e)
}

/// The wave from `e` reaches `y` within `k` steps.
pub open spec fn within(nv: Seq<NodeSpec>, e: Seq<char>, y: Seq<char>, k: int) -> bool {
    reaches_within(stale_edge(nv, e), e, y, k)
}

/// The wave from `e` reaches `a` no later than it reaches `b`: within any
/// number of steps in which it reaches `b`, it reaches `a` too.
pub open spec fn no_farther(nv: Seq<NodeSpec>, e: Seq<char>, a: Seq<char>, b: Seq<char>) -> bool {
    forall|k: int| #[trigger] within(nv, e, b, k) ==> within(nv, e, a, k)
}

/// `r` lists nodes in the order a wave from `e` reaches them: nearer nodes
/// first, and nodes the wave reaches at the same step in node order.
pub open spec fn in_wave_order(nv: Seq<NodeSpec>, e: Seq<char>, r: Seq<Seq<char>>) -> bool {
    forall|p: int, q: int|
        #![trigger r[p], r[q]]
        0 <= p < q < r.len() ==> no_farther(nv, e, r[p], r[q]) && (no_farther(nv, e, r[q], r[p])
            ==> index_of(nv, r[p]) < index_of(nv, r[q]))
}

/// The wave from `e` first reaches `y` at step `d`.
spec fn at_step(nv: Seq<NodeSpec>, e: Seq<char>, y: Seq<char>, d: int) -> bool {
    &&& d >= 1
    &&& within(nv, e, y, d)
    &&& !within(nv, e, y, d - 1)
}

proof fn lemma_at_step_order(nv: Seq<NodeSpec>, e: Seq<char>, a: Seq<char>, da: int, b: Seq<char>, db: int)
    requires
        at_step(nv, e, a, da),
        at_step(nv, e, b, db),
        da <= db,
    ensures
        no_farther(nv, e, a, b),
        da < db ==> !no_farther(nv, e, b, a),
{
    let rel = stale_edge(nv, e);
    assert forall|k: int| #[trigger] within(nv, e, b, k) implies within(nv, e, a, k) by {
        if k < db {
            lemma_within_monotone(rel, e, b, k, db - 1);
        }
        lemma_within_monotone(rel, e, a, da, k);
    }
    if da < db {
        if within(nv, e, b, da) {
            lemma_within_monotone(rel, e, b, da, db - 1);
        }
        assert(within(nv, e, a, da));
    }
}

proof fn lemma_step_new(nv: Seq<NodeSpec>, e: Seq<char>, k: int, frontier: Seq<Seq<char>>, y: Seq<char>)
    requires
        k >= 0,
        forall|x: Seq<char>| #[trigger] frontier.contains(x) <==> (if k == 0 {
            x == e
        } else {
            within(nv, e, x, k) && !within(nv, e, x, k - 1)
        }),
    ensures
        (!within(nv, e, y, k) && exists|x: Seq<char>| frontier.contains(x) && #[trigger] stale_edge(
            nv,
            e,
        )(x, y)) <==> (within(nv, e, y, k + 1) && !within(nv, e, y, k)),
{
    let rel = stale_edge(nv, e);
    lemma_within_step(rel, e, y, k);
    if !within(nv, e, y, k) && exists|x: Seq<char>| frontier.contains(x) && #[trigger] rel(x, y) {
        let x = choose|x: Seq<char>| frontier.contains(x) && #[trigger] rel(x, y);
        if k > 0 {
            assert(within(nv, e, x, k));
        }
    }
    if within(nv, e, y, k + 1) && !within(nv, e, y, k) {
        if k == 0 {
            lemma_within_none(rel, e, y, 0);
            assert forall|x: Seq<char>| !(reaches_within(rel, e, x, 0) && #[trigger] rel(x, y)) by {
                lemma_within_none(rel, e, x, 0);
            }
            assert(rel(e, y));
            assert(frontier.contains(e));
        } else {
            if rel(e, y) {
                lemma_within_step(rel, e, y, 0);
                lemma_within_monotone(rel, e, y, 1, k);
            }
            let x = choose|x: Seq<char>| reaches_within(rel, e, x, k) && #[trigger] rel(x, y);
            if within(nv, e, x, k - 1) {
                lemma_within_step(rel, e, y, k - 1);
            }
            assert(frontier.contains(x));
        }
    }
}

proof fn lemma_within_node(nv: Seq<NodeSpec>, e: Seq<char>, y: Seq<char>, k: int)
    requires
        within(nv, e, y, k),
    ensures
        has_node(nv, y),
        passes_wave(nv, y),
{
    let rel = stale_edge(nv, e);
    let p = choose|p: Seq<Seq<char>>|
        #[trigger] crate::graph::is_path(rel, p) && p[0] == e && p.last() == y && p.len() <= k + 1;
    assert(crate::graph::step(rel, p, p.len() - 2));
}

proof fn lemma_within_stable(nv: Seq<NodeSpec>, e: Seq<char>, k: int, m: int, y: Seq<char>)
    requires
        k >= 0,
        k <= m,
        forall|z: Seq<char>| #[trigger] within(nv, e, z, k + 1) ==> within(nv, e, z, k),
    ensures
        within(nv, e, y, m) ==> within(nv, e, y, k),
    decreases m - k,
{
    let rel = stale_edge(nv, e);
    if m > k && within(nv, e, y, m) {
        lemma_within_step(rel, e, y, m - 1);
        if rel(e, y) {
            lemma_within_step(rel, e, y, k);
            assert(within(nv, e, y, k + 1));
        } else {
            let x = choose|x: Seq<char>| reaches_within(rel, e, x, m - 1) && #[trigger] rel(x, y);
            lemma_within_stable(nv, e, k, m - 1, x);
            lemma_within_step(rel, e, y, k);
            assert(within(nv, e, y, k + 1));
        }
    }
}

/// `n` marked stale because of `e`, at time `now`, by `user`.
pub open spec fn mark_stale(n: NodeSpec, e: Seq<char>, now: Seq<char>, user: Seq<char>) -> NodeSpec {
    NodeSpec {
        frontmatter: FrontmatterSpec {
            status: Status::Stale,
            stale_sources: n.frontmatter.stale_sources.push(
                StaleSourceSpec { node_id: e, changed_at: now },
            ),
            status_updated_at: now,
            status_updated_by: user,
            ..n.frontmatter
        },
        content: n.content,
    }
}

/// The nodes after a propagation from `e` at time `now` by `user`.
pub open spec fn propagated(nv: Seq<NodeSpec>, e: Seq<char>, now: Seq<char>, user: Seq<char>) -> Seq<
    NodeSpec,
> {
    Seq::new(
        nv.len(),
        |i: int|
            if marked_by(nv, e, nv[i].frontmatter.id) {
                mark_stale(nv[i], e, now, user)
            } else {
                nv[i]
            },
    )
}

/// `n` made current with no stale sources, at time `now`, by `user`.
pub open spec fn mark_reviewed(n: NodeSpec, now: Seq<char>, user: Seq<char>) -> NodeSpec {
    NodeSpec {
        frontmatter: FrontmatterSpec {
            status: Status::Current,
            stale_sources: Seq::empty(),
            status_updated_at: now,
            status_updated_by: user,
            ..n.frontmatter
        },
        content: n.content,
    }
}

/// What reviewing `n` at time `now` by `user` gives: a node that is
/// already current with no stale sources is left as it is; any other node
/// is made current with its sources cleared and the review stamped.
pub open spec fn review_of(n: NodeSpec, now: Seq<char>, user: Seq<char>) -> NodeSpec {
    if n.frontmatter.status == Status::Current && n.frontmatter.stale_sources.len() == 0 {
        n
    } else {
        mark_reviewed(n, now, user)
    }
}

/// Whether node `j` is eligible to be marked because of `e`.
fn is_eligible(nodes: &Vec<Node>, j: usize, e: &String) -> (b: bool)
    requires
        j < nodes@.len(),
    ensures
        b == (nodes@[j as int].frontmatter.node_type == NodeType::Deduction && !source_ids(
            nodes@[j as int]@.frontmatter,
        ).contains(e@)),
{
    let n = &nodes[j];
    match n.frontmatter.node_type {
        NodeType::Axiom => false,
        NodeType::Deduction => {
            let srcs = &n.frontmatter.stale_sources;
            let ghost sv = source_ids(n@.frontmatter);
            let mut k: usize = 0;
            while k < srcs.len()
                invariant
                    j < nodes@.len(),
                    *n == nodes@[j as int],
                    srcs@ == n.frontmatter.stale_sources@,
                    sv == source_ids(n@.frontmatter),
                    sv.len() == srcs@.len(),
                    k <= srcs@.len(),
                    forall|m: int| 0 <= m < k ==> sv[m] != e@,
                decreases srcs@.len() - k,
            {
                assert(sv[k as int] == srcs@[k as int].node_id@);
                if same_text(&srcs[k].node_id, e) {
                    assert(sv[k as int] == e@);
                    return false;
                }
                k = k + 1;
            }
            true
        },
    }
}

/// Whether node `j` is a deduction.
fn is_deduction(nodes: &Vec<Node>, j: usize) -> (b: bool)
    requires
        j < nodes@.len(),
    ensures
        b == (nodes@[j as int].frontmatter.node_type == NodeType::Deduction),
{
    match nodes[j].frontmatter.node_type {
        NodeType::Axiom => false,
        NodeType::Deduction => true,
    }
}

/// `n` marked stale because of `e`, at `now` by `user`.
fn marked_copy(n: &Node, e: &String, now: &String, user: &String) -> (r: Node)
    ensures
        r@ == mark_stale(n@, e@, now@, user@),
{
    let mut sources = crate::model::copy_sources(&n.frontmatter.stale_sources);
    let ghost s0 = sources_view(sources@);
    sources.push(StaleSource { node_id: copy_string(e), changed_at: copy_string(now) });
    assert(sources_view(sources@) =~= s0.push(StaleSourceSpec { node_id: e@, changed_at: now@ }));
    let fm = &n.frontmatter;
    let r = Node {
        frontmatter: NodeFrontmatter {
            id: copy_string(&fm.id),
            title: copy_string(&fm.title),
            node_type: fm.node_type,
            tags: copy_strings(&fm.tags),
            status: Status::Stale,
            status_updated_at: copy_string(now),
            status_updated_by: copy_string(user),
            stale_sources: sources,
            created_at: copy_string(&fm.created_at),
            created_by: copy_string(&fm.created_by),
            dependencies: copy_dependencies(&fm.dependencies),
            relation: copy_opt_string(&fm.relation),
        },
        content: copy_string(&n.content),
    };
    r
}

/// Makes `n` current with no stale sources.
pub(crate) fn reviewed_copy(n: &Node, now: &String, user: &String) -> (r: Node)
    ensures
        r@ == mark_reviewed(n@, now@, user@),
{
    let fm = &n.frontmatter;
    let sources: Vec<StaleSource> = Vec::new();
    assert(sources_view(sources@) =~= Seq::<StaleSourceSpec>::empty());
    Node {
        frontmatter: NodeFrontmatter {
            id: copy_string(&fm.id),
            title: copy_string(&fm.title),
            node_type: fm.node_type,
            tags: copy_strings(&fm.tags),
            status: Status::Current,
            status_updated_at: copy_string(now),
            status_updated_by: copy_string(user),
            stale_sources: sources,
            created_at: copy_string(&fm.created_at),
            created_by: copy_string(&fm.created_by),
            dependencies: copy_dependencies(&fm.dependencies),
            relation: copy_opt_string(&fm.relation),
        },
        content: copy_string(&n.content),
    }
}

impl KnowledgeBase {
    /// The dependents of `key` that carry a staleness wave on.
    fn wave_dependents(&self, key: &String) -> (r: Vec<String>)
        ensures
            forall|y: Seq<char>| #[trigger]
                texts(r@).contains(y) <==> (lists(self.nodes_view(), y, key@) && passes_wave(
                    self.nodes_view(),
                    y,
                )),
    {
        proof {
            use_type_invariant(&*self);
        }
        let ghost nv = self.nodes_view();
        let deps = self.dependents_of(key.as_str());
        let mut r: Vec<String> = Vec::new();
        let mut k: usize = 0;
        while k < deps.len()
            invariant
                nv == self.nodes_view(),
                node_ids(nv).no_duplicates(),
                k <= deps@.len(),
                forall|y: Seq<char>| #[trigger] texts(deps@).contains(y) <==> lists(nv, y, key@),
                forall|y: Seq<char>| #[trigger]
                    texts(r@).contains(y) <==> (texts(deps@).take(k as int).contains(y)
                        && passes_wave(nv, y)),
            decreases deps@.len() - k,
        {
            let ghost before = texts(r@);
            let ghost dk = texts(deps@).take(k as int);
            let ghost y0 = deps@[k as int]@;
            assert(texts(deps@).take(k + 1) =~= dk.push(y0));
            let mut keep = false;
            match find_node(&self.nodes, &deps[k]) {
                Some(j) => {
                    proof {
                        lemma_index_of_unique(nv, j as int);
                    }
                    keep = is_deduction(&self.nodes, j);
                },
                None => {},
            }
            assert(keep == passes_wave(nv, y0));
            if keep {
                r.push(copy_string(&deps[k]));
                assert(texts(r@) =~= before.push(y0));
            }
            assert forall|y: Seq<char>| #[trigger]
                texts(r@).contains(y) <==> (texts(deps@).take(k + 1).contains(y) && passes_wave(
                    nv,
                    y,
                )) by {
                crate::text::lemma_push_contains(dk, y0, y);
                if keep {
                    crate::text::lemma_push_contains(before, y0, y);
                }
            }
            k = k + 1;
        }
        assert(texts(deps@).take(k as int) =~= texts(deps@));
        r
    }

    /// The propagation graph from `e` as an adjacency list.
    fn stale_adjacency(&self, e: &String) -> (a: Adjacency)
        ensures
            well_keyed(adj_view(a@)),
            edges_of(adj_view(a@)) == stale_edge(self.nodes_view(), e@),
    {
        proof {
            use_type_invariant(&*self);
        }
        let ghost nv = self.nodes_view();
        let mut a: Adjacency = Vec::new();
        let mut i: usize = 0;
        while i < self.nodes.len()
            invariant
                nv == self.nodes_view(),
                self.wf(),
                i <= nv.len(),
                a@.len() == i,
                forall|k: int| 0 <= k < i ==> #[trigger] adj_view(a@)[k].0 == nv[k].frontmatter.id,
                forall|k: int, y: Seq<char>|
                    0 <= k < i ==> (#[trigger] adj_view(a@)[k].1.contains(y) <==> (lists(
                        nv,
                        y,
                        nv[k].frontmatter.id,
                    ) && passes_wave(nv, y))),
            decreases nv.len() - i,
        {
            let succ = self.wave_dependents(&self.nodes[i].frontmatter.id);
            let ghost a0 = a@;
            let ghost entry = (nv[i as int].frontmatter.id, texts(succ@));
            a.push((copy_string(&self.nodes[i].frontmatter.id), succ));
            assert(adj_view(a@) =~= adj_view(a0).push(entry));
            i = i + 1;
        }
        let ghost base = adj_view(a@);
        assert(keys(base) =~= node_ids(nv));
        let found = find_node(&self.nodes, e);
        let e_is_node = found.is_some();
        let ghost mut entry = (e@, Seq::<Seq<char>>::empty());
        if !e_is_node {
            let succ = self.wave_dependents(e);
            proof {
                entry = (e@, texts(succ@));
            }
            a.push((copy_string(e), succ));
            assert(adj_view(a@) =~= base.push(entry));
        }
        let ghost av = adj_view(a@);
        proof {
            if e_is_node {
                let j = found.unwrap() as int;
                assert(nv[j].frontmatter.id == e@);
                assert(node_ids(nv)[j] == e@);
            }
            assert(keys(av) == if e_is_node { node_ids(nv) } else { node_ids(nv).push(e@) }) by {
                if !e_is_node {
                    assert(keys(av) =~= node_ids(nv).push(e@));
                } else {
                    assert(keys(av) =~= node_ids(nv));
                }
            }
            assert(keys(av).no_duplicates()) by {
                if !e_is_node {
                    assert forall|p: int, q: int| 0 <= p < q < keys(av).len() implies keys(av)[p]
                        != keys(av)[q] by {
                        if q == nv.len() {
                            assert(keys(av)[p] == node_ids(nv)[p]);
                        }
                    }
                }
            }
            assert forall|k: int, y: Seq<char>| 0 <= k < av.len() && #[trigger] av[k].1.contains(
                y,
            ) implies keys(av).contains(y) by {
                assert(passes_wave(nv, y));
                let j = choose|j: int| 0 <= j < node_ids(nv).len() && node_ids(nv)[j] == y;
                assert(keys(av)[j] == y);
            }
            assert(edges_of(av) =~= stale_edge(nv, e@)) by {
                assert forall|x: Seq<char>, y: Seq<char>| #[trigger] has_edge(av, x, y) <==> ((
                has_node(nv, x) || x == e@) && lists(nv, y, x) && passes_wave(nv, y)) by {
                    if has_edge(av, x, y) {
                        let k = choose|k: int|
                            0 <= k < av.len() && #[trigger] av[k].0 == x && av[k].1.contains(y);
                        if k < nv.len() {
                            assert(node_ids(nv)[k] == x);
                        }
                    }
                    if (has_node(nv, x) || x == e@) && lists(nv, y, x) && passes_wave(nv, y) {
                        if has_node(nv, x) {
                            lemma_index_of(nv, x);
                            let k = index_of(nv, x);
                            assert(av[k].0 == x && av[k].1.contains(y));
                        } else {
                            assert(av[nv.len() as int].0 == x && av[nv.len() as int].1.contains(y));
                        }
                    }
                }
            }
        }
        a
    }

    /// The nodes a propagation from `e` marks, in the order the wave reaches
    /// them: step by step, and within a step in node order.
    fn marked_in_wave_order(&self, e: &String, adj: &Adjacency) -> (r: Vec<String>)
        requires
            well_keyed(adj_view(adj@)),
            edges_of(adj_view(adj@)) == stale_edge(self.nodes_view(), e@),
        ensures
            texts(r@).no_duplicates(),
            forall|y: Seq<char>| #[trigger]
                texts(r@).contains(y) <==> marked_by(self.nodes_view(), e@, y),
            in_wave_order(self.nodes_view(), e@, texts(r@)),
    {
        proof {
            use_type_invariant(&*self);
        }
        let ghost nv = self.nodes_view();
        let ghost rel = stale_edge(nv, e@);
        let ghost a = adj_view(adj@);
        let mut seen: Vec<String> = Vec::new();
        let mut frontier: Vec<String> = Vec::new();
        frontier.push(copy_string(e));
        let mut out: Vec<String> = Vec::new();
        let ghost mut k: int = 0;
        let ghost mut steps: Seq<int> = Seq::empty();
        proof {
            assert(texts(frontier@) =~= seq![e@]);
            assert forall|x: Seq<char>| #[trigger] texts(frontier@).contains(x) <==> x == e@ by {
                if x == e@ {
                    assert(texts(frontier@)[0] == x);
                }
            }
            assert(texts(seen@) =~= Seq::<Seq<char>>::empty());
            assert(texts(out@) =~= Seq::<Seq<char>>::empty());
            assert forall|y: Seq<char>| !within(nv, e@, y, 0) by {
                lemma_within_none(rel, e@, y, 0);
            }
        }
        loop
            invariant
                nv == self.nodes_view(),
                node_ids(nv).no_duplicates(),
                a == adj_view(adj@),
                well_keyed(a),
                edges_of(a) == rel,
                rel == stale_edge(nv, e@),
                k >= 0,
                texts(seen@).no_duplicates(),
                seen@.len() <= nv.len(),
                forall|y: Seq<char>| #[trigger] texts(seen@).contains(y) <==> within(nv, e@, y, k),
                forall|x: Seq<char>| #[trigger]
                    texts(frontier@).contains(x) <==> (if k == 0 {
                        x == e@
                    } else {
                        within(nv, e@, x, k) && !within(nv, e@, x, k - 1)
                    }),
                texts(out@).no_duplicates(),
                forall|y: Seq<char>| #[trigger]
                    texts(out@).contains(y) <==> (within(nv, e@, y, k) && eligible(nv, y, e@)),
                steps.len() == out@.len(),
                forall|p: int|
                    0 <= p < steps.len() ==> at_step(nv, e@, texts(out@)[p], #[trigger] steps[p])
                        && steps[p] <= k,
                forall|p: int, q: int|
                    #![trigger steps[p], steps[q]]
                    0 <= p < q < steps.len() ==> steps[p] < steps[q] || (steps[p] == steps[q]
                        && index_of(nv, texts(out@)[p]) < index_of(nv, texts(out@)[q])),
            ensures
                k >= 0,
                texts(out@).no_duplicates(),
                forall|y: Seq<char>| #[trigger]
                    texts(out@).contains(y) <==> (within(nv, e@, y, k) && eligible(nv, y, e@)),
                forall|z: Seq<char>| #[trigger] within(nv, e@, z, k + 1) ==> within(nv, e@, z, k),
                steps.len() == out@.len(),
                forall|p: int|
                    0 <= p < steps.len() ==> at_step(nv, e@, texts(out@)[p], #[trigger] steps[p]),
                forall|p: int, q: int|
                    #![trigger steps[p], steps[q]]
                    0 <= p < q < steps.len() ==> steps[p] < steps[q] || (steps[p] == steps[q]
                        && index_of(nv, texts(out@)[p]) < index_of(nv, texts(out@)[q])),
            decreases nv.len() - seen@.len(),
        {
            let mut next: Vec<String> = Vec::new();
            let ghost out0 = texts(out@);
            let ghost steps0 = steps;
            let mut i: usize = 0;
            while i < self.nodes.len()
                invariant
                    nv == self.nodes_view(),
                    node_ids(nv).no_duplicates(),
                    a == adj_view(adj@),
                    well_keyed(a),
                    edges_of(a) == rel,
                    rel == stale_edge(nv, e@),
                    k >= 0,
                    i <= nv.len(),
                    forall|y: Seq<char>| #[trigger]
                        texts(seen@).contains(y) <==> within(nv, e@, y, k),
                    forall|x: Seq<char>| #[trigger]
                        texts(frontier@).contains(x) <==> (if k == 0 {
                            x == e@
                        } else {
                            within(nv, e@, x, k) && !within(nv, e@, x, k - 1)
                        }),
                    texts(next@).no_duplicates(),
                    forall|y: Seq<char>| #[trigger]
                        texts(next@).contains(y) <==> (node_ids(nv).take(i as int).contains(y)
                            && within(nv, e@, y, k + 1) && !within(nv, e@, y, k)),
                    forall|y: Seq<char>| #[trigger]
                        out0.contains(y) <==> (within(nv, e@, y, k) && eligible(nv, y, e@)),
                    out0.len() <= out@.len(),
                    texts(out@).take(out0.len() as int) == out0,
                    texts(out@).no_duplicates(),
                    forall|y: Seq<char>| #[trigger]
                        texts(out@).contains(y) <==> (out0.contains(y) || (texts(next@).contains(y)
                            && eligible(nv, y, e@))),
                    steps.len() == out@.len(),
                    forall|p: int|
                        0 <= p < steps.len() ==> at_step(nv, e@, texts(out@)[p], #[trigger] steps[p])
                            && steps[p] <= k + 1,
                    forall|p: int|
                        out0.len() <= p < steps.len() ==> #[trigger] steps[p] == k + 1 && index_of(
                            nv,
                            texts(out@)[p],
                        ) < i,
                    forall|p: int| 0 <= p < out0.len() ==> #[trigger] steps[p] <= k,
                    forall|p: int, q: int|
                        #![trigger steps[p], steps[q]]
                        0 <= p < q < steps.len() ==> steps[p] < steps[q] || (steps[p] == steps[q]
                            && index_of(nv, texts(out@)[p]) < index_of(nv, texts(out@)[q])),
                decreases nv.len() - i,
            {
                let ghost y = nv[i as int].frontmatter.id;
                let ghost next0 = texts(next@);
                let ghost outb = texts(out@);
                let ghost stepsb = steps;
                proof {
                    lemma_index_of_unique(nv, i as int);
                    lemma_step_new(nv, e@, k, texts(frontier@), y);
                    assert forall|x: Seq<char>| #[trigger] has_edge(a, x, y) == rel(x, y) by {
                        assert(edges_of(a)(x, y) == has_edge(a, x, y));
                    }
                    assert(node_ids(nv).take(i + 1) =~= node_ids(nv).take(i as int).push(y));
                    assert(!node_ids(nv).take(i as int).contains(y)) by {
                        if node_ids(nv).take(i as int).contains(y) {
                            let m = choose|m: int|
                                0 <= m < i && node_ids(nv).take(i as int)[m] == y;
                            assert(node_ids(nv)[m] == node_ids(nv)[i as int]);
                        }
                    }
                }
                assert(self.nodes@[i as int]@ == nv[i as int]);
                let is_new = !vec_contains_text(&seen, &self.nodes[i].frontmatter.id)
                    && edge_from_any(adj, &frontier, &self.nodes[i].frontmatter.id);
                assert(is_new == (within(nv, e@, y, k + 1) && !within(nv, e@, y, k)));
                if is_new {
                    next.push(copy_string(&self.nodes[i].frontmatter.id));
                    assert(texts(next@) =~= next0.push(y));
                    if is_eligible(&self.nodes, i, e) {
                        out.push(copy_string(&self.nodes[i].frontmatter.id));
                        proof {
                            steps = steps.push(k + 1);
                            assert(texts(out@) =~= outb.push(y));
                            assert(!outb.contains(y));
                            assert forall|p: int, q: int|
                                0 <= p < q < texts(out@).len() implies texts(out@)[p] != texts(
                                    out@,
                                )[q] by {
                                if q == outb.len() {
                                    assert(outb.contains(outb[p]));
                                }
                            }
                            assert(texts(out@).take(out0.len() as int) =~= outb.take(
                                out0.len() as int,
                            ));
                            assert forall|p: int| 0 <= p < steps.len() implies at_step(
                                nv,
                                e@,
                                texts(out@)[p],
                                #[trigger] steps[p],
                            ) && steps[p] <= k + 1 by {
                                if p < stepsb.len() {
                                    assert(steps[p] == stepsb[p]);
                                    assert(texts(out@)[p] == outb[p]);
                                }
                            }
                            assert forall|p: int, q: int|
                                #![trigger steps[p], steps[q]]
                                0 <= p < q < steps.len() implies steps[p] < steps[q] || (steps[p]
                                    == steps[q] && index_of(nv, texts(out@)[p]) < index_of(
                                    nv,
                                    texts(out@)[q],
                                )) by {
                                assert(steps[p] == stepsb[p]);
                                assert(texts(out@)[p] == outb[p]);
                                if q < stepsb.len() {
                                    assert(steps[q] == stepsb[q]);
                                    assert(texts(out@)[q] == outb[q]);
                                } else if p >= out0.len() {
                                    assert(stepsb[p] == k + 1);
                                } else {
                                    assert(stepsb[p] <= k);
                                }
                            }
                            assert forall|p: int|
                                out0.len() <= p < steps.len() implies #[trigger] steps[p] == k + 1
                                && index_of(nv, texts(out@)[p]) < i + 1 by {
                                if p < stepsb.len() {
                                    assert(steps[p] == stepsb[p]);
                                    assert(texts(out@)[p] == outb[p]);
                                }
                            }
                            assert forall|p: int| 0 <= p < out0.len() implies #[trigger] steps[p]
                                <= k by {
                                assert(steps[p] == stepsb[p]);
                            }
                        }
                    }
                }
                proof {
                    assert forall|z: Seq<char>| #[trigger] texts(next@).contains(z) <==> (node_ids(
                        nv,
                    ).take(i + 1).contains(z) && within(nv, e@, z, k + 1) && !within(
                        nv,
                        e@,
                        z,
                        k,
                    )) by {
                        crate::text::lemma_push_contains(node_ids(nv).take(i as int), y, z);
                        if is_new {
                            crate::text::lemma_push_contains(next0, y, z);
                        }
                    }
                    if is_new {
                        assert(!next0.contains(y));
                        assert forall|p: int, q: int|
                            0 <= p < q < texts(next@).len() implies texts(next@)[p] != texts(
                                next@,
                            )[q] by {
                            if q == next0.len() {
                                assert(next0.contains(next0[p]));
                            }
                        }
                    }
                    assert forall|z: Seq<char>| #[trigger] texts(out@).contains(z) <==> (
                    out0.contains(z) || (texts(next@).contains(z) && eligible(nv, z, e@))) by {
                        if is_new {
                            crate::text::lemma_push_contains(next0, y, z);
                            if texts(out@).len() > outb.len() {
                                crate::text::lemma_push_contains(outb, y, z);
                            }
                        }
                    }
                }
                let ghost i0 = i as int;
                i = i + 1;
                proof {
                    assert forall|p: int|
                        out0.len() <= p < steps.len() implies #[trigger] steps[p] == k + 1
                        && index_of(nv, texts(out@)[p]) < i by {
                        assert(steps[p] == k + 1);
                        assert(index_of(nv, texts(out@)[p]) < i0 + 1);
                    }
                }
            }
            proof {
                assert(node_ids(nv).take(nv.len() as int) =~= node_ids(nv));
            }
            if next.len() == 0 {
                proof {
                    assert forall|z: Seq<char>| #[trigger] within(nv, e@, z, k + 1) implies within(
                        nv,
                        e@,
                        z,
                        k,
                    ) by {
                        lemma_within_node(nv, e@, z, k + 1);
                        if !within(nv, e@, z, k) {
                            assert(texts(next@).contains(z));
                        }
                    }
                    assert(texts(out@) =~= out0) by {
                        assert(texts(out@).take(out0.len() as int) == out0);
                        if texts(out@).len() > out0.len() {
                            let z = texts(out@)[out0.len() as int];
                            assert(texts(out@).contains(z));
                            assert(!texts(next@).contains(z));
                            assert(out0.contains(z));
                            let m = choose|m: int| 0 <= m < out0.len() && out0[m] == z;
                            assert(texts(out@)[m] == z);
                        }
                    }
                    assert forall|p: int| 0 <= p < steps.len() implies #[trigger] steps[p] <= k by {
                        assert(p < out0.len());
                    }
                }
                break;
            }
            let ghost seen0 = texts(seen@);
            let mut t: usize = 0;
            while t < next.len()
                invariant
                    t <= next@.len(),
                    texts(seen@) == seen0 + texts(next@).take(t as int),
                decreases next@.len() - t,
            {
                let ghost sb = texts(seen@);
                seen.push(copy_string(&next[t]));
                assert(texts(seen@) =~= sb.push(next@[t as int]@));
                assert(texts(next@).take(t + 1) =~= texts(next@).take(t as int).push(
                    next@[t as int]@,
                ));
                assert(texts(seen@) =~= seen0 + texts(next@).take(t + 1));
                t = t + 1;
            }
            proof {
                let nx = texts(next@);
                assert(nx.take(nx.len() as int) =~= nx);
                assert forall|z: Seq<char>| #[trigger] texts(seen@).contains(z) <==> within(
                    nv,
                    e@,
                    z,
                    k + 1,
                ) by {
                    vstd::seq_lib::lemma_seq_concat_contains_all_elements(seen0, nx, z);
                    if within(nv, e@, z, k) {
                        lemma_within_monotone(rel, e@, z, k, k + 1);
                    }
                    if texts(seen@).contains(z) {
                        let m = choose|m: int| 0 <= m < texts(seen@).len() && texts(seen@)[m] == z;
                        if m < seen0.len() {
                            assert(seen0.contains(z));
                        } else {
                            assert(nx.contains(nx[m - seen0.len()]));
                        }
                    }
                    if within(nv, e@, z, k + 1) {
                        lemma_within_node(nv, e@, z, k + 1);
                    }
                }
                assert(texts(seen@).no_duplicates()) by {
                    assert forall|p: int, q: int|
                        0 <= p < q < texts(seen@).len() implies texts(seen@)[p] != texts(seen@)[q] by {
                        if p < seen0.len() && q >= seen0.len() {
                            assert(seen0.contains(seen0[p]));
                            assert(nx.contains(nx[q - seen0.len()]));
                        } else if p >= seen0.len() {
                            assert(nx[p - seen0.len()] != nx[q - seen0.len()]);
                        } else {
                            assert(seen0[p] != seen0[q]);
                        }
                    }
                }
                assert forall|z: Seq<char>| texts(seen@).contains(z) implies node_ids(nv).contains(z) by {
                    lemma_within_node(nv, e@, z, k + 1);
                }
                lemma_bounded_by_keys(texts(seen@), node_ids(nv));
                assert(next@.len() > 0);
            }
            frontier = next;
            proof {
                assert forall|y: Seq<char>| #[trigger] texts(out@).contains(y) <==> (within(
                    nv,
                    e@,
                    y,
                    k + 1,
                ) && eligible(nv, y, e@)) by {
                    if within(nv, e@, y, k) {
                        lemma_within_monotone(rel, e@, y, k, k + 1);
                    }
                    if within(nv, e@, y, k + 1) && eligible(nv, y, e@) && !within(nv, e@, y, k) {
                        lemma_within_node(nv, e@, y, k + 1);
                    }
                }
                k = k + 1;
            }
        }
        proof {
            assert forall|y: Seq<char>| #[trigger] texts(out@).contains(y) <==> marked_by(
                nv,
                e@,
                y,
            ) by {
                lemma_reaches_within_some(rel, e@, y);
                if reached_by(nv, e@, y) {
                    let m = choose|m: int| #[trigger] reaches_within(rel, e@, y, m);
                    if m <= k {
                        lemma_within_monotone(rel, e@, y, m, k);
                    } else {
                        lemma_within_stable(nv, e@, k, m, y);
                    }
                }
                if within(nv, e@, y, k) {
                    assert(reaches_within(rel, e@, y, k));
                }
            }
            assert forall|p: int, q: int|
                #![trigger texts(out@)[p], texts(out@)[q]]
                0 <= p < q < texts(out@).len() implies no_farther(
                nv,
                e@,
                texts(out@)[p],
                texts(out@)[q],
            ) && (no_farther(nv, e@, texts(out@)[q], texts(out@)[p]) ==> index_of(
                nv,
                texts(out@)[p],
            ) < index_of(nv, texts(out@)[q])) by {
                assert(at_step(nv, e@, texts(out@)[p], steps[p]));
                assert(at_step(nv, e@, texts(out@)[q], steps[q]));
                lemma_at_step_order(nv, e@, texts(out@)[p], steps[p], texts(out@)[q], steps[q]);
                if steps[p] == steps[q] {
                    lemma_at_step_order(nv, e@, texts(out@)[q], steps[q], texts(out@)[p], steps[p]);
                }
            }
        }
        out
    }

    /// Marks every downstream dependent of `edited_node_id` stale, at time
    /// `now`, by `username`; returns the IDs of the nodes it marked in the
    /// order the wave reaches them: nearer dependents first, and dependents
    /// the wave reaches at the same step in node order.
    ///
    /// The wave follows dependents through deductions; an axiom is never
    /// marked and does not pass the wave on. A reached node that already
    /// records `edited_node_id` as a stale source is not stamped again but
    /// passes the wave on.
    pub fn propagate_staleness_at(&mut self, edited_node_id: &str, now: &String, username: &String) -> (r: Vec<String>)
        ensures
            texts(r@).no_duplicates(),
            forall|y: Seq<char>| #[trigger]
                texts(r@).contains(y) <==> marked_by(old(self).nodes_view(), edited_node_id@, y),
            in_wave_order(old(self).nodes_view(), edited_node_id@, texts(r@)),
            final(self).nodes_view() == propagated(
                old(self).nodes_view(),
                edited_node_id@,
                now@,
                username@,
            ),
            final(self).root_view() == old(self).root_view(),
            final(self).config_view() == old(self).config_view(),
            final(self).duplicates_view() == old(self).duplicates_view(),
    {
        proof {
            use_type_invariant(&*self);
        }
        let ghost nv = self.nodes_view();
        let e = String::from_str(edited_node_id);
        let adj = self.stale_adjacency(&e);
        let reached = reach_set(&adj, &e);
        let affected = self.marked_in_wave_order(&e, &adj);
        let mut new_nodes: Vec<Node> = Vec::new();
        let mut i: usize = 0;
        while i < self.nodes.len()
            invariant
                nv == self.nodes_view(),
                node_ids(nv).no_duplicates(),
                e@ == edited_node_id@,
                i <= nv.len(),
                new_nodes@.len() == i,
                forall|y: Seq<char>| #[trigger]
                    texts(reached@).contains(y) <==> reached_by(nv, e@, y),
                forall|k: int|
                    0 <= k < i ==> #[trigger] views(new_nodes@)[k] == propagated(
                        nv,
                        e@,
                        now@,
                        username@,
                    )[k],
            decreases nv.len() - i,
        {
            let ghost n0 = new_nodes@;
            let ghost id = nv[i as int].frontmatter.id;
            assert(nv[i as int] == self.nodes@[i as int]@);
            proof {
                lemma_index_of_unique(nv, i as int);
            }
            let hit = vec_contains_text(&reached, &self.nodes[i].frontmatter.id) && is_eligible(
                &self.nodes,
                i,
                &e,
            );
            assert(hit == marked_by(nv, e@, id));
            let item = if hit {
                marked_copy(&self.nodes[i], &e, now, username)
            } else {
                self.nodes[i].copy()
            };
            assert(item@ == propagated(nv, e@, now@, username@)[i as int]);
            new_nodes.push(item);
            assert forall|k: int| 0 <= k < i + 1 implies #[trigger] views(new_nodes@)[k] == propagated(
                nv,
                e@,
                now@,
                username@,
            )[k] by {
                assert(views(new_nodes@)[k] == new_nodes@[k]@);
                if k < i {
                    assert(new_nodes@[k] == n0[k]);
                    assert(views(n0)[k] == n0[k]@);
                } else {
                    assert(new_nodes@[k] == item);
                }
            }
            i = i + 1;
        }
        let ghost pv = propagated(nv, e@, now@, username@);
        assert(views(new_nodes@) =~= pv);
        assert(node_ids(views(new_nodes@)) =~= node_ids(nv));
        self.set_nodes(new_nodes);
        affected
    }

    /// Marks every downstream dependent of `edited_node_id` stale, stamped
    /// with the current time and user; returns the IDs of the nodes it
    /// marked.
    pub fn propagate_staleness(&mut self, edited_node_id: &str) -> (r: Vec<String>)
        ensures
            texts(r@).no_duplicates(),
            forall|y: Seq<char>| #[trigger]
                texts(r@).contains(y) <==> marked_by(old(self).nodes_view(), edited_node_id@, y),
            in_wave_order(old(self).nodes_view(), edited_node_id@, texts(r@)),
            exists|now: Seq<char>, user: Seq<char>|
                final(self).nodes_view() == #[trigger] propagated(
                    old(self).nodes_view(),
                    edited_node_id@,
                    now,
                    user,
                ),
            final(self).root_view() == old(self).root_view(),
            final(self).config_view() == old(self).config_view(),
            final(self).duplicates_view() == old(self).duplicates_view(),
    {
        proof {
            use_type_invariant(&*self);
        }
        let now = crate::util::now_iso8601();
        let username = crate::util::os_username();
        self.propagate_staleness_at(edited_node_id, &now, &username)
    }

    /// Marks a node reviewed at time `now` by `username`: its status
    /// becomes `Current` and its stale sources are cleared. A node that is
    /// already current with no stale sources is left as it is. No other
    /// node changes.
    pub fn mark_node_reviewed_at(&mut self, id: &str, now: &String, username: &String) -> (r: Result<Node, Error>)
        ensures
            final(self).root_view() == old(self).root_view(),
            final(self).config_view() == old(self).config_view(),
            final(self).duplicates_view() == old(self).duplicates_view(),
            match r {
                Ok(n) => has_node(old(self).nodes_view(), id@) && n@ == review_of(
                    old(self).nodes_view()[index_of(old(self).nodes_view(), id@)],
                    now@,
                    username@,
                ) && final(self).nodes_view() == old(self).nodes_view().update(
                    index_of(old(self).nodes_view(), id@),
                    n@,
                ),
                Err(e) => !has_node(old(self).nodes_view(), id@) && e@ == ErrorSpec::NodeNotFound(
                    id@,
                ) && final(self).nodes_view() == old(self).nodes_view(),
            },
    {
        proof {
            use_type_invariant(&*self);
        }
        let ghost nv = self.nodes_view();
        let key = String::from_str(id);
        match find_node(&self.nodes, &key) {
            None => Err(Error::NodeNotFound(key)),
            Some(i) => {
                proof {
                    lemma_index_of_unique(nv, i as int);
                }
                assert(nv[i as int] == self.nodes@[i as int]@);
                let already = match self.nodes[i].frontmatter.status {
                    Status::Current => self.nodes[i].frontmatter.stale_sources.len() == 0,
                    Status::Stale => false,
                };
                if already {
                    let same = self.nodes[i].copy();
                    assert(nv.update(i as int, same@) =~= nv);
                    return Ok(same);
                }
                let updated = reviewed_copy(&self.nodes[i], now, username);
                let result = updated.copy();
                let mut new_nodes: Vec<Node> = Vec::new();
                let mut k: usize = 0;
                while k < self.nodes.len()
                    invariant
                        nv == self.nodes_view(),
                        i < nv.len(),
                        updated@ == mark_reviewed(nv[i as int], now@, username@),
                        k <= nv.len(),
                        new_nodes@.len() == k,
                        forall|m: int| 0 <= m < k ==> #[trigger] views(new_nodes@)[m] == nv.update(
                            i as int,
                            updated@,
                        )[m],
                    decreases nv.len() - k,
                {
                    let ghost n0 = new_nodes@;
                    assert(nv[k as int] == self.nodes@[k as int]@);
                    let item = if k == i {
                        updated.copy()
                    } else {
                        self.nodes[k].copy()
                    };
                    assert(item@ == nv.update(i as int, updated@)[k as int]);
                    new_nodes.push(item);
                    assert forall|m: int| 0 <= m < k + 1 implies #[trigger] views(new_nodes@)[m]
                        == nv.update(i as int, updated@)[m] by {
                        assert(views(new_nodes@)[m] == new_nodes@[m]@);
                        if m < k {
                            assert(new_nodes@[m] == n0[m]);
                            assert(views(n0)[m] == n0[m]@);
                        } else {
                            assert(new_nodes@[m] == item);
                        }
                    }
                    k = k + 1;
                }
                assert(views(new_nodes@) =~= nv.update(i as int, updated@));
                assert(node_ids(views(new_nodes@)) =~= node_ids(nv));
                self.set_nodes(new_nodes);
                Ok(result)
            },
        }
    }

    /// Marks a node reviewed, stamped with the current time and user: its
    /// status becomes `Current` and its stale sources are cleared; a node
    /// already current with no stale sources is left as it is. The cascade
    /// stops here: no other node changes.
    pub fn mark_node_reviewed(&mut self, id: &str) -> (r: Result<Node, Error>)
        ensures
            final(self).root_view() == old(self).root_view(),
            final(self).config_view() == old(self).config_view(),
            final(self).duplicates_view() == old(self).duplicates_view(),
            match r {
                Ok(n) => has_node(old(self).nodes_view(), id@) && (exists|now: Seq<char>, user: Seq<char>|
                    n@ == #[trigger] review_of(
                        old(self).nodes_view()[index_of(old(self).nodes_view(), id@)],
                        now,
                        user,
                    )) && final(self).nodes_view() == old(self).nodes_view().update(
                    index_of(old(self).nodes_view(), id@),
                    n@,
                ),
                Err(e) => !has_node(old(self).nodes_view(), id@) && e@ == ErrorSpec::NodeNotFound(
                    id@,
                ) && final(self).nodes_view() == old(self).nodes_view(),
            },
    {
        proof {
            use_type_invariant(&*self);
        }
        let now = crate::util::now_iso8601();
        let username = crate::util::os_username();
        self.mark_node_reviewed_at(id, &now, &username)
    }
}

} // verus!
