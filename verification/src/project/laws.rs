//! Properties that span operations: what a read gives back after a write,
//! why accepted edges never close a cycle, and how staleness propagation
//! behaves when it is repeated.
use vstd::prelude::*;

use super::edge::{as_axiom, with_deps, with_edge, without_dep};
use super::staleness::{
    eligible, mark_stale, marked_by, passes_wave, propagated, reached_by, review_of, source_ids,
    stale_edge,
};
use super::validation::{error_total, has_cycle, IssueSpec, Severity};
use super::{
    depends_edge, has_node, index_of, lemma_index_of, lemma_index_of_unique, lemma_lists_at,
    lemma_unique_index, lists, node_ids, upsert,
};
use crate::graph::{is_path, lemma_edge_reaches, lemma_reaches_extend, lemma_reaches_first_step, lemma_reaches_trans, reaches, step};
use crate::model::{dep_ids, ids_of_deps, type_violation, DependencySpec, NodeSpec, NodeType, Status};

verus! {

// ── Reads after writes ───────────────────────────────────

/// After a node is put in the graph (as `create_node` and
/// `ingest_external_node` do), looking its ID up finds exactly that node,
/// and IDs stay distinct.
pub proof fn lemma_lookup_after_upsert(nv: Seq<NodeSpec>, n: NodeSpec)
    requires
        node_ids(nv).no_duplicates(),
    ensures
        has_node(upsert(nv, n), n.frontmatter.id),
        upsert(nv, n)[index_of(upsert(nv, n), n.frontmatter.id)] == n,
        node_ids(upsert(nv, n)).no_duplicates(),
{
    let id = n.frontmatter.id;
    let w = upsert(nv, n);
    if has_node(nv, id) {
        lemma_index_of(nv, id);
        let i = index_of(nv, id);
        assert(node_ids(w) =~= node_ids(nv));
        lemma_index_of_unique(w, i);
    } else {
        assert(node_ids(w) =~= node_ids(nv).push(id));
        assert forall|p: int, q: int| 0 <= p < q < node_ids(w).len() implies node_ids(w)[p]
            != node_ids(w)[q] by {
            if q == nv.len() {
                assert(node_ids(nv).contains(node_ids(nv)[p]));
            }
        }
        lemma_index_of_unique(w, nv.len() as int);
    }
}

/// After node `id` is removed (as `delete_node` and `remove_external_node`
/// do), no node has that ID any more.
pub proof fn lemma_lookup_after_remove(nv: Seq<NodeSpec>, id: Seq<char>)
    requires
        node_ids(nv).no_duplicates(),
        has_node(nv, id),
    ensures
        !has_node(nv.remove(index_of(nv, id)), id),
{
    lemma_index_of(nv, id);
    let i = index_of(nv, id);
    let w = nv.remove(i);
    if has_node(w, id) {
        let j = choose|j: int| 0 <= j < node_ids(w).len() && node_ids(w)[j] == id;
        if j < i {
            assert(nv[j].frontmatter.id == id);
            lemma_unique_index(nv, i, j);
        } else {
            assert(nv[j + 1].frontmatter.id == id);
            lemma_unique_index(nv, i, j + 1);
        }
    }
}

/// Deleting a node that `create_node` has just added gives the graph back
/// exactly as it was.
pub proof fn lemma_delete_undoes_create(nv: Seq<NodeSpec>, n: NodeSpec)
    requires
        node_ids(nv).no_duplicates(),
        !has_node(nv, n.frontmatter.id),
    ensures
        upsert(nv, n).remove(index_of(upsert(nv, n), n.frontmatter.id)) == nv,
{
    lemma_lookup_after_upsert(nv, n);
    let w = upsert(nv, n);
    assert(w == nv.push(n));
    lemma_index_of_unique(w, nv.len() as int);
    assert(w.remove(nv.len() as int) =~= nv);
}

// ── Undoing an edge ──────────────────────────────────────

/// Removing the entries for an ID that a dependency list does not name
/// leaves the list as it was.
proof fn lemma_without_absent(d: Seq<DependencySpec>, b: Seq<char>)
    requires
        !ids_of_deps(d).contains(b),
    ensures
        without_dep(d, b) == d,
    decreases d.len(),
{
    if d.len() > 0 {
        assert(ids_of_deps(d)[d.len() - 1] == d.last().node_id);
        assert forall|x: Seq<char>| ids_of_deps(d.drop_last()).contains(x) implies ids_of_deps(
            d,
        ).contains(x) by {
            let k = choose|k: int| 0 <= k < ids_of_deps(d.drop_last()).len() && ids_of_deps(
                d.drop_last(),
            )[k] == x;
            assert(ids_of_deps(d)[k] == x);
        }
        lemma_without_absent(d.drop_last(), b);
        assert(d.drop_last().push(d.last()) =~= d);
    }
}

/// Deleting the edge that `create_edge` has just added gives the graph back
/// exactly as it was.
pub proof fn lemma_delete_edge_undoes_create_edge(
    nv: Seq<NodeSpec>,
    a: Seq<char>,
    b: Seq<char>,
    ann: Option<Seq<char>>,
)
    requires
        node_ids(nv).no_duplicates(),
        has_node(nv, a),
        !dep_ids(nv[index_of(nv, a)].frontmatter).contains(b),
    ensures
        ({
            let w = with_edge(nv, a, b, ann);
            let i = index_of(w, a);
            w.update(i, with_deps(w[i], without_dep(w[i].frontmatter.dependencies, b))) == nv
        }),
{
    lemma_index_of(nv, a);
    let i = index_of(nv, a);
    let w = with_edge(nv, a, b, ann);
    assert(node_ids(w) =~= node_ids(nv));
    lemma_index_of_unique(w, i);
    let d = nv[i].frontmatter.dependencies;
    let entry = DependencySpec { node_id: b, annotation: ann };
    assert(w[i].frontmatter.dependencies == d.push(entry));
    assert(d.push(entry).drop_last() =~= d);
    lemma_without_absent(d, b);
    assert(without_dep(d.push(entry), b) == d);
    assert(with_deps(w[i], d) == nv[i]);
    assert(w.update(i, nv[i]) =~= nv);
}

/// The deletion check's "last dependency" flag (every entry names the
/// dependency) holds exactly when deleting that edge, which removes every
/// entry naming it, leaves the node with no dependencies.
pub proof fn lemma_last_dependency_flag(deps: Seq<DependencySpec>, id: Seq<char>)
    ensures
        (forall|k: int| 0 <= k < deps.len() ==> #[trigger] deps[k].node_id == id) <==> without_dep(
            deps,
            id,
        ).len() == 0,
    decreases deps.len(),
{
    if deps.len() > 0 {
        let p = deps.drop_last();
        lemma_last_dependency_flag(p, id);
        if forall|k: int| 0 <= k < deps.len() ==> #[trigger] deps[k].node_id == id {
            assert(deps.last().node_id == id);
            assert forall|k: int| 0 <= k < p.len() implies #[trigger] p[k].node_id == id by {
                assert(p[k] == deps[k]);
            }
        } else {
            let k = choose|k: int| 0 <= k < deps.len() && deps[k].node_id != id;
            if k < p.len() {
                assert(p[k] == deps[k]);
            }
        }
        if without_dep(deps, id).len() == 0 {
            assert forall|k: int| 0 <= k < deps.len() implies #[trigger] deps[k].node_id == id by {
                if k < p.len() {
                    assert(p[k] == deps[k]);
                }
            }
        }
    }
}

// ── Acyclicity ───────────────────────────────────────────

/// The edges of the graph with `a → b` added are the old edges and that one.
proof fn lemma_with_edge_edges(
    nv: Seq<NodeSpec>,
    a: Seq<char>,
    b: Seq<char>,
    ann: Option<Seq<char>>,
    x: Seq<char>,
    y: Seq<char>,
)
    requires
        node_ids(nv).no_duplicates(),
        has_node(nv, a),
        has_node(nv, b),
    ensures
        node_ids(with_edge(nv, a, b, ann)) == node_ids(nv),
        depends_edge(with_edge(nv, a, b, ann))(x, y) <==> (depends_edge(nv)(x, y) || (x == a && y
            == b)),
{
    let w = with_edge(nv, a, b, ann);
    lemma_index_of(nv, a);
    let i = index_of(nv, a);
    assert(node_ids(w) =~= node_ids(nv));
    let old_deps = nv[i].frontmatter.dependencies;
    let new_entry = DependencySpec { node_id: b, annotation: ann };
    assert(dep_ids(w[i].frontmatter) =~= dep_ids(nv[i].frontmatter).push(b)) by {
        assert(w[i].frontmatter.dependencies == old_deps.push(new_entry));
    }
    crate::text::lemma_push_contains(dep_ids(nv[i].frontmatter), b, y);
    if x == nv[i].frontmatter.id {
        lemma_lists_at(nv, i, x, y);
        lemma_lists_at(w, i, x, y);
    } else {
        if lists(nv, x, y) {
            let j = choose|j: int|
                0 <= j < nv.len() && #[trigger] nv[j].frontmatter.id == x && dep_ids(
                    nv[j].frontmatter,
                ).contains(y);
            assert(w[j].frontmatter.id == x && dep_ids(w[j].frontmatter).contains(y));
        }
        if lists(w, x, y) {
            let j = choose|j: int|
                0 <= j < w.len() && #[trigger] w[j].frontmatter.id == x && dep_ids(
                    w[j].frontmatter,
                ).contains(y);
            assert(nv[j].frontmatter.id == x && dep_ids(nv[j].frontmatter).contains(y));
        }
    }
}

/// A walk over `r` plus the one edge `a → b` either avoids that edge, or
/// splits into a part that reaches `a` and a part that leaves `b`.
proof fn lemma_split_walk(
    r: spec_fn(Seq<char>, Seq<char>) -> bool,
    r2: spec_fn(Seq<char>, Seq<char>) -> bool,
    a: Seq<char>,
    b: Seq<char>,
    p: Seq<Seq<char>>,
    k: int,
)
    requires
        forall|x: Seq<char>, y: Seq<char>| #[trigger] r2(x, y) ==> r(x, y) || (x == a && y == b),
        is_path(r2, p),
        1 <= k < p.len(),
    ensures
        reaches(r, p[0], p[k]) || ((p[0] == a || reaches(r, p[0], a)) && (p[k] == b || reaches(
            r,
            b,
            p[k],
        ))),
    decreases k,
{
    assert(step(r2, p, k - 1));
    assert(r2(p[k - 1], p[k]));
    if k == 1 {
        if r(p[0], p[1]) {
            lemma_edge_reaches(r, p[0], p[1]);
        }
    } else {
        lemma_split_walk(r, r2, a, b, p, k - 1);
        if r(p[k - 1], p[k]) {
            if reaches(r, p[0], p[k - 1]) {
                lemma_reaches_extend(r, p[0], p[k - 1], p[k]);
            } else if p[k - 1] == b {
                lemma_edge_reaches(r, b, p[k]);
            } else {
                lemma_reaches_extend(r, b, p[k - 1], p[k]);
            }
        }
    }
}

/// Adding an edge `a → b` between two existing, distinct nodes, where `b`
/// does not already reach `a` (the edges `create_edge` accepts), keeps a
/// graph free of cycles.
pub proof fn lemma_added_edge_keeps_acyclic(
    nv: Seq<NodeSpec>,
    a: Seq<char>,
    b: Seq<char>,
    ann: Option<Seq<char>>,
)
    requires
        node_ids(nv).no_duplicates(),
        has_node(nv, a),
        has_node(nv, b),
        a != b,
        !reaches(depends_edge(nv), b, a),
        !has_cycle(nv),
    ensures
        !has_cycle(with_edge(nv, a, b, ann)),
{
    let w = with_edge(nv, a, b, ann);
    let e = depends_edge(nv);
    let e2 = depends_edge(w);
    assert forall|x: Seq<char>, y: Seq<char>| #[trigger] e2(x, y) implies e(x, y) || (x == a && y
        == b) by {
        lemma_with_edge_edges(nv, a, b, ann, x, y);
    }
    lemma_with_edge_edges(nv, a, b, ann, a, b);
    assert forall|x: Seq<char>| has_node(w, x) implies !#[trigger] reaches(e2, x, x) by {
        if reaches(e2, x, x) {
            let p = choose|p: Seq<Seq<char>>| #[trigger] is_path(e2, p) && p[0] == x && p.last() == x;
            lemma_split_walk(e, e2, a, b, p, p.len() - 1);
            assert(has_node(nv, x));
            if reaches(e, x, x) {
                assert(has_cycle(nv));
            } else if x == a {
                if x != b {
                    assert(reaches(e, b, a));
                }
            } else if x == b {
                assert(reaches(e, b, a));
            } else {
                lemma_reaches_trans(e, b, x, a);
            }
        }
    }
}

// ── Staleness ────────────────────────────────────────────

/// The staleness wave only reaches deductions: an axiom is never marked.
pub proof fn lemma_wave_reaches_only_deductions(nv: Seq<NodeSpec>, e: Seq<char>, y: Seq<char>)
    requires
        reached_by(nv, e, y),
    ensures
        passes_wave(nv, y),
{
    let r = stale_edge(nv, e);
    let p = choose|p: Seq<Seq<char>>| #[trigger] is_path(r, p) && p[0] == e && p.last() == y;
    assert(step(r, p, p.len() - 2));
}

/// Propagation keeps the order of the nodes and each node's ID,
/// dependencies and type.
pub proof fn lemma_propagated_shape(nv: Seq<NodeSpec>, e: Seq<char>, now: Seq<char>, user: Seq<char>)
    ensures
        propagated(nv, e, now, user).len() == nv.len(),
        forall|i: int|
            0 <= i < nv.len() ==> {
                let m = #[trigger] propagated(nv, e, now, user)[i];
                &&& m.frontmatter.id == nv[i].frontmatter.id
                &&& m.frontmatter.dependencies == nv[i].frontmatter.dependencies
                &&& m.frontmatter.node_type == nv[i].frontmatter.node_type
            },
        node_ids(propagated(nv, e, now, user)) == node_ids(nv),
{
    assert(node_ids(propagated(nv, e, now, user)) =~= node_ids(nv));
}

/// Every node the wave from `e` reaches records `e` as a stale source
/// afterwards, exactly once if it did not before: a node that did not
/// record it becomes `Stale` with `e` added once; a node that did is left
/// as it was.
pub proof fn lemma_reached_records_source(
    nv: Seq<NodeSpec>,
    e: Seq<char>,
    now: Seq<char>,
    user: Seq<char>,
    i: int,
)
    requires
        node_ids(nv).no_duplicates(),
        0 <= i < nv.len(),
        reached_by(nv, e, nv[i].frontmatter.id),
    ensures
        ({
            let m = propagated(nv, e, now, user)[i];
            &&& source_ids(m.frontmatter).contains(e)
            &&& !source_ids(nv[i].frontmatter).contains(e) ==> m.frontmatter.status == Status::Stale
                && source_ids(m.frontmatter) == source_ids(nv[i].frontmatter).push(e)
            &&& source_ids(nv[i].frontmatter).contains(e) ==> m == nv[i]
        }),
{
    let id = nv[i].frontmatter.id;
    lemma_index_of_unique(nv, i);
    lemma_wave_reaches_only_deductions(nv, e, id);
    let m = propagated(nv, e, now, user)[i];
    let s0 = source_ids(nv[i].frontmatter);
    if !s0.contains(e) {
        assert(m == mark_stale(nv[i], e, now, user));
        assert(source_ids(m.frontmatter) =~= s0.push(e));
        assert(source_ids(m.frontmatter)[s0.len() as int] == e);
    }
}

/// Two node sequences with the same IDs, dependencies and types, node for
/// node, have the same staleness edges.
proof fn lemma_same_shape_same_wave(nv: Seq<NodeSpec>, w: Seq<NodeSpec>, e: Seq<char>)
    requires
        node_ids(nv).no_duplicates(),
        w.len() == nv.len(),
        forall|i: int|
            0 <= i < nv.len() ==> #[trigger] w[i].frontmatter.id == nv[i].frontmatter.id
                && w[i].frontmatter.dependencies == nv[i].frontmatter.dependencies
                && w[i].frontmatter.node_type == nv[i].frontmatter.node_type,
    ensures
        node_ids(w) == node_ids(nv),
        stale_edge(w, e) == stale_edge(nv, e),
{
    assert(node_ids(w) =~= node_ids(nv));
    assert forall|y: Seq<char>| has_node(nv, y) implies index_of(w, y) == index_of(nv, y) by {
        lemma_index_of(nv, y);
        lemma_index_of_unique(w, index_of(nv, y));
    }
    assert forall|x: Seq<char>, y: Seq<char>| lists(w, y, x) <==> lists(nv, y, x) by {
        if lists(w, y, x) {
            let j = choose|j: int|
                0 <= j < w.len() && #[trigger] w[j].frontmatter.id == y && dep_ids(
                    w[j].frontmatter,
                ).contains(x);
            assert(nv[j].frontmatter.id == y && dep_ids(nv[j].frontmatter).contains(x));
        }
        if lists(nv, y, x) {
            let j = choose|j: int|
                0 <= j < nv.len() && #[trigger] nv[j].frontmatter.id == y && dep_ids(
                    nv[j].frontmatter,
                ).contains(x);
            assert(w[j].frontmatter.id == nv[j].frontmatter.id);
            assert(dep_ids(w[j].frontmatter) == dep_ids(nv[j].frontmatter));
            assert(w[j].frontmatter.id == y && dep_ids(w[j].frontmatter).contains(x));
        }
    }
    assert forall|y: Seq<char>| passes_wave(w, y) <==> passes_wave(nv, y) by {
        if has_node(nv, y) {
            lemma_index_of(nv, y);
        }
    }
    assert(stale_edge(w, e) =~= stale_edge(nv, e));
}

/// Propagating staleness twice from the same edit changes nothing the
/// second time: the second wave reaches the same nodes, and every one of
/// them already records the edit.
pub proof fn lemma_propagation_idempotent(
    nv: Seq<NodeSpec>,
    e: Seq<char>,
    now: Seq<char>,
    user: Seq<char>,
    now2: Seq<char>,
    user2: Seq<char>,
)
    requires
        node_ids(nv).no_duplicates(),
    ensures
        forall|y: Seq<char>| !#[trigger] marked_by(propagated(nv, e, now, user), e, y),
        propagated(propagated(nv, e, now, user), e, now2, user2) == propagated(nv, e, now, user),
{
    let w = propagated(nv, e, now, user);
    lemma_propagated_shape(nv, e, now, user);
    lemma_same_shape_same_wave(nv, w, e);
    assert forall|y: Seq<char>| !#[trigger] marked_by(w, e, y) by {
        if marked_by(w, e, y) {
            assert(reached_by(nv, e, y));
            lemma_index_of(w, y);
            let k = index_of(w, y);
            assert(node_ids(nv)[k] == y);
            lemma_index_of_unique(nv, k);
            lemma_index_of_unique(w, k);
            lemma_reached_records_source(nv, e, now, user, k);
        }
    }
    assert(propagated(w, e, now2, user2) =~= w);
}

/// In a graph without cycles, the wave from an edit never comes back to
/// the edited node: that would be a cycle.
pub proof fn lemma_acyclic_edit_not_self_marked(nv: Seq<NodeSpec>, e: Seq<char>)
    requires
        !has_cycle(nv),
    ensures
        !reached_by(nv, e, e),
{
    if reached_by(nv, e, e) {
        let r = stale_edge(nv, e);
        let d = depends_edge(nv);
        let p = choose|p: Seq<Seq<char>>| #[trigger] is_path(r, p) && p[0] == e && p.last() == e;
        let k = p.len() - 1;
        assert(step(r, p, k - 1));
        assert(has_node(nv, e));
        let q = Seq::new(p.len(), |i: int| p[k - i]);
        assert forall|i: int| 0 <= i < q.len() - 1 implies #[trigger] step(d, q, i) by {
            assert(step(r, p, k - i - 1));
            assert(q[i] == p[k - i] && q[i + 1] == p[k - i - 1]);
            if k - i - 1 > 0 {
                assert(step(r, p, k - i - 2));
            }
        }
        assert(is_path(d, q));
        assert(q[0] == e && q.last() == e);
        assert(reaches(d, e, e));
    }
}

/// After `update_node` on a graph without cycles, looking the node up gives
/// back exactly the node that the update returned: the staleness wave it
/// starts never reaches the edited node.
pub proof fn lemma_lookup_after_update(
    nv: Seq<NodeSpec>,
    n: NodeSpec,
    now: Seq<char>,
    user: Seq<char>,
)
    requires
        node_ids(nv).no_duplicates(),
        has_node(nv, n.frontmatter.id),
        !has_cycle(nv.update(index_of(nv, n.frontmatter.id), n)),
    ensures
        ({
            let edited = nv.update(index_of(nv, n.frontmatter.id), n);
            let w = propagated(edited, n.frontmatter.id, now, user);
            has_node(w, n.frontmatter.id) && w[index_of(w, n.frontmatter.id)] == n
        }),
{
    let id = n.frontmatter.id;
    lemma_index_of(nv, id);
    let i = index_of(nv, id);
    let edited = nv.update(i, n);
    assert(node_ids(edited) =~= node_ids(nv));
    lemma_acyclic_edit_not_self_marked(edited, id);
    let w = propagated(edited, id, now, user);
    lemma_propagated_shape(edited, id, now, user);
    lemma_index_of_unique(w, i);
    assert(w[i] == n);
}

// ── What single operations give ──────────────────────────

/// `create_edge(a, b, ann)` adds exactly one entry to `a`'s dependencies:
/// the list it had, then `b` with the label `ann`, whatever `a` listed
/// before. No other node changes, and `a` keeps everything else.
pub proof fn lemma_created_edge_is_last_entry(
    nv: Seq<NodeSpec>,
    a: Seq<char>,
    b: Seq<char>,
    ann: Option<Seq<char>>,
)
    requires
        has_node(nv, a),
    ensures
        ({
            let i = index_of(nv, a);
            let m = with_edge(nv, a, b, ann);
            let old_deps = nv[i].frontmatter.dependencies;
            let new_deps = m[i].frontmatter.dependencies;
            &&& m.len() == nv.len()
            &&& new_deps.len() == old_deps.len() + 1
            &&& new_deps.last() == DependencySpec { node_id: b, annotation: ann }
            &&& forall|k: int| 0 <= k < old_deps.len() ==> new_deps[k] == old_deps[k]
            &&& m[i].frontmatter.id == a
            &&& m[i].frontmatter.node_type == nv[i].frontmatter.node_type
            &&& m[i].frontmatter.relation == nv[i].frontmatter.relation
            &&& m[i].frontmatter.stale_sources == nv[i].frontmatter.stale_sources
            &&& m[i].content == nv[i].content
            &&& forall|k: int| 0 <= k < nv.len() && k != i ==> m[k] == nv[k]
        }),
{
    lemma_index_of(nv, a);
}

/// Converting a node to an axiom leaves it with no relation and no stale
/// sources; when no dependency is left, the node meets the axiom type
/// constraints.
pub proof fn lemma_converted_axiom_is_clean(n: NodeSpec, deps: Seq<DependencySpec>)
    ensures
        as_axiom(n, deps).frontmatter.node_type == NodeType::Axiom,
        as_axiom(n, deps).frontmatter.relation is None,
        as_axiom(n, deps).frontmatter.stale_sources.len() == 0,
        as_axiom(n, deps).frontmatter.dependencies == deps,
        as_axiom(n, deps).frontmatter.id == n.frontmatter.id,
        deps.len() == 0 ==> type_violation(as_axiom(n, deps).frontmatter) is None,
{
}

/// A review leaves every node current with no stale sources, however many
/// it had; its ID, type and dependencies stay.
pub proof fn lemma_review_clears_every_source(n: NodeSpec, now: Seq<char>, user: Seq<char>)
    ensures
        review_of(n, now, user).frontmatter.status == Status::Current,
        review_of(n, now, user).frontmatter.stale_sources.len() == 0,
        review_of(n, now, user).frontmatter.id == n.frontmatter.id,
        review_of(n, now, user).frontmatter.node_type == n.frontmatter.node_type,
        review_of(n, now, user).frontmatter.dependencies == n.frontmatter.dependencies,
{
}

/// After node `i` is reviewed, a later propagation whose wave reaches it
/// marks it stale again, whichever edit starts that wave.
pub proof fn lemma_reviewed_node_is_marked_again(
    nv: Seq<NodeSpec>,
    i: int,
    now: Seq<char>,
    user: Seq<char>,
    e: Seq<char>,
)
    requires
        node_ids(nv).no_duplicates(),
        0 <= i < nv.len(),
        reached_by(nv.update(i, review_of(nv[i], now, user)), e, nv[i].frontmatter.id),
    ensures
        marked_by(nv.update(i, review_of(nv[i], now, user)), e, nv[i].frontmatter.id),
{
    let nv2 = nv.update(i, review_of(nv[i], now, user));
    let id = nv[i].frontmatter.id;
    assert(node_ids(nv2) =~= node_ids(nv)) by {
        assert forall|k: int| 0 <= k < nv.len() implies node_ids(nv2)[k] == node_ids(nv)[k] by {}
    }
    lemma_index_of_unique(nv2, i);
    lemma_wave_reaches_only_deductions(nv2, e, id);
    assert(source_ids(nv2[i].frontmatter) =~= Seq::<Seq<char>>::empty());
    assert(eligible(nv2, id, e));
}

/// The error count of a report is the number of its issues whose severity
/// is `Error`, whatever rule they come from; it is zero exactly when no
/// issue is an error.
pub proof fn lemma_error_total_counts_errors(s: Seq<IssueSpec>)
    ensures
        error_total(s) == s.filter(|x: IssueSpec| x.severity == Severity::Error).len(),
        error_total(s) <= s.len(),
        error_total(s) == 0 <==> forall|k: int| 0 <= k < s.len() ==> #[trigger] s[k].severity
            != Severity::Error,
    decreases s.len(),
{
    reveal_with_fuel(Seq::filter, 1);
    if s.len() > 0 {
        let init = s.drop_last();
        lemma_error_total_counts_errors(init);
        if error_total(s) == 0 {
            assert forall|k: int| 0 <= k < s.len() implies #[trigger] s[k].severity != Severity::Error by {
                if k < init.len() {
                    assert(init[k] == s[k]);
                }
            }
        }
        if forall|k: int| 0 <= k < s.len() ==> #[trigger] s[k].severity != Severity::Error {
            assert forall|k: int| 0 <= k < init.len() implies #[trigger] init[k].severity
                != Severity::Error by {
                assert(init[k] == s[k]);
            }
            assert(s[s.len() - 1].severity != Severity::Error);
        }
    }
}

} // verus!
