//! Node create, read, update and delete on the knowledge base.
use vstd::prelude::*;

use super::staleness::{in_wave_order, marked_by, propagated};
use super::{
    closure_index, depends_edge, find_node, has_node, index_of, lemma_index_of,
    lemma_index_of_unique, lemma_lists_at, lists, node_ids, upsert, views, KnowledgeBase,
};
use crate::graph::{adj_view, keys, lemma_edge_reaches, lemma_reaches_first_step, lemma_reaches_trans, lookup, reaches};
use crate::error::{Error, ErrorSpec};
use crate::model::{
    copy_dependencies, copy_opt_string, dep_ids, deps_view, ids_of_deps, opt_text, type_violation, Dependency, DependencySpec,
    FrontmatterSpec, Node, NodeFrontmatter, NodeId, NodeSpec, NodeType, StaleSource,
    StaleSourceSpec, Status, sources_view,
};
use crate::order::{sort_texts, sorted};
use crate::text::{copy_string, copy_strings, same_text, texts, vec_contains_text};
use crate::util::{format_node_id, generate_node_id, node_id_text};

verus! {

/// Parameters for creating or updating a node.
#[derive(Debug, Clone)]
pub struct NodeParams {
    pub title: String,
    pub node_type: NodeType,
    pub tags: Vec<String>,
    pub dependencies: Vec<Dependency>,
    pub relation: Option<String>,
    pub content: String,
}

/// The frontmatter that `params` give a node with ID `id`, stamped with
/// `at` and `by` for its status, created at `created_at` by `created_by`,
/// current and with no stale sources.
pub open spec fn frontmatter_from(
    params: NodeParams,
    id: Seq<char>,
    at: Seq<char>,
    by: Seq<char>,
    created_at: Seq<char>,
    created_by: Seq<char>,
) -> FrontmatterSpec {
    FrontmatterSpec {
        id,
        title: params.title@,
        node_type: params.node_type,
        tags: texts(params.tags@),
        status: Status::Current,
        status_updated_at: at,
        status_updated_by: by,
        stale_sources: Seq::empty(),
        created_at,
        created_by,
        dependencies: deps_view(params.dependencies@),
        relation: opt_text(params.relation),
    }
}

/// The node that `params` give, with the given ID, stamps and creation record.
pub open spec fn node_from(
    params: NodeParams,
    id: Seq<char>,
    at: Seq<char>,
    by: Seq<char>,
    created_at: Seq<char>,
    created_by: Seq<char>,
) -> NodeSpec {
    NodeSpec {
        frontmatter: frontmatter_from(params, id, at, by, created_at, created_by),
        content: params.content@,
    }
}

/// The type constraint that a node built from `params` breaks, if any.
/// (It depends on the node type, the dependencies and the relation alone.)
pub open spec fn params_violation(params: NodeParams) -> Option<Seq<char>> {
    type_violation(
        frontmatter_from(params, Seq::empty(), Seq::empty(), Seq::empty(), Seq::empty(), Seq::empty()),
    )
}

proof fn lemma_violation_of_params(
    params: NodeParams,
    id: Seq<char>,
    at: Seq<char>,
    by: Seq<char>,
    ca: Seq<char>,
    cb: Seq<char>,
)
    ensures
        type_violation(frontmatter_from(params, id, at, by, ca, cb)) == params_violation(params),
{
}

/// The first dependency entry of `deps`, in list order, that names no node
/// of `nv`.
pub open spec fn first_missing(nv: Seq<NodeSpec>, deps: Seq<DependencySpec>) -> Option<Seq<char>>
    decreases deps.len(),
{
    if deps.len() == 0 {
        None
    } else if !has_node(nv, deps[0].node_id) {
        Some(deps[0].node_id)
    } else {
        first_missing(nv, deps.drop_first())
    }
}

/// `id` is free for a new node: no node has it and no dependency entry
/// names it.
pub open spec fn unused_id(nv: Seq<NodeSpec>, id: Seq<char>) -> bool {
    &&& !has_node(nv, id)
    &&& forall|y: Seq<char>| !#[trigger] lists(nv, y, id)
}

/// The graph with node `id` given the dependencies that `params` list (its
/// other fields do not change the graph).
pub open spec fn updated_graph(nv: Seq<NodeSpec>, id: Seq<char>, params: NodeParams) -> Seq<NodeSpec> {
    nv.update(
        index_of(nv, id),
        node_from(params, id, Seq::empty(), Seq::empty(), Seq::empty(), Seq::empty()),
    )
}

/// Giving node `id` the dependencies of `params` would put it on a cycle.
pub open spec fn update_closes_cycle(nv: Seq<NodeSpec>, id: Seq<char>, params: NodeParams) -> bool {
    reaches(depends_edge(updated_graph(nv, id, params)), id, id)
}

/// `d` is a dependency of `params` through which node `id` would reach
/// itself: `d` is `id`, or `d` reaches `id` in the updated graph.
pub open spec fn cycle_through(nv: Seq<NodeSpec>, id: Seq<char>, params: NodeParams, d: Seq<char>) -> bool {
    &&& ids_of_deps(deps_view(params.dependencies@)).contains(d)
    &&& (d == id || reaches(depends_edge(updated_graph(nv, id, params)), d, id))
}

/// The error an update of node `id` from `params` gives, in the order the
/// checks run: an unknown node, a type constraint, a dependency that names
/// no node, then a cycle, reported as `id` and a dependency through which
/// it would reach itself.
pub open spec fn update_error(nv: Seq<NodeSpec>, id: Seq<char>, params: NodeParams, e: ErrorSpec) -> bool {
    if !has_node(nv, id) {
        e == ErrorSpec::NodeNotFound(id)
    } else if params_violation(params) is Some {
        e == ErrorSpec::TypeConstraint(params_violation(params)->Some_0)
    } else if first_missing(nv, deps_view(params.dependencies@)) is Some {
        e == ErrorSpec::NodeNotFound(first_missing(nv, deps_view(params.dependencies@))->Some_0)
    } else {
        &&& update_closes_cycle(nv, id, params)
        &&& exists|d: Seq<char>|
            #[trigger] cycle_through(nv, id, params, d) && e == ErrorSpec::CycleDetected {
                path: seq![id, d],
            }
    }
}

proof fn lemma_first_missing(nv: Seq<NodeSpec>, deps: Seq<DependencySpec>)
    ensures
        first_missing(nv, deps) is None <==> forall|k: int|
            0 <= k < deps.len() ==> has_node(nv, #[trigger] deps[k].node_id),
        first_missing(nv, deps) matches Some(d) ==> !has_node(nv, d),
    decreases deps.len(),
{
    if deps.len() > 0 {
        lemma_first_missing(nv, deps.drop_first());
        if has_node(nv, deps[0].node_id) {
            assert forall|k: int| 0 <= k < deps.len() && k > 0 implies (has_node(nv, #[trigger] deps[k].node_id)
                <==> has_node(nv, deps.drop_first()[k - 1].node_id)) by {}
            if !(forall|k: int| 0 <= k < deps.len() ==> has_node(nv, #[trigger] deps[k].node_id)) {
                let k = choose|k: int| 0 <= k < deps.len() && !has_node(nv, #[trigger] deps[k].node_id);
                assert(!has_node(nv, deps.drop_first()[k - 1].node_id));
            }
        }
    }
}

/// Two node sequences with the same IDs and dependencies, node for node,
/// have the same dependency graph.
proof fn lemma_same_links(nv: Seq<NodeSpec>, w: Seq<NodeSpec>)
    requires
        w.len() == nv.len(),
        forall|i: int|
            0 <= i < nv.len() ==> #[trigger] w[i].frontmatter.id == nv[i].frontmatter.id
                && w[i].frontmatter.dependencies == nv[i].frontmatter.dependencies,
    ensures
        node_ids(w) == node_ids(nv),
        depends_edge(w) == depends_edge(nv),
{
    assert(node_ids(w) =~= node_ids(nv));
    assert forall|x: Seq<char>, y: Seq<char>| lists(w, x, y) <==> lists(nv, x, y) by {
        if lists(w, x, y) {
            let j = choose|j: int|
                0 <= j < w.len() && #[trigger] w[j].frontmatter.id == x && dep_ids(
                    w[j].frontmatter,
                ).contains(y);
            assert(w[j].frontmatter.id == nv[j].frontmatter.id);
            assert(dep_ids(w[j].frontmatter) == dep_ids(nv[j].frontmatter));
        }
        if lists(nv, x, y) {
            let j = choose|j: int|
                0 <= j < nv.len() && #[trigger] nv[j].frontmatter.id == x && dep_ids(
                    nv[j].frontmatter,
                ).contains(y);
            assert(w[j].frontmatter.id == nv[j].frontmatter.id);
            assert(dep_ids(w[j].frontmatter) == dep_ids(nv[j].frontmatter));
        }
    }
    assert(depends_edge(w) =~= depends_edge(nv));
}

/// Builds the node that `params` describe, current and with no stale
/// sources, checking the type constraints.
pub fn build_node(
    params: &NodeParams,
    id: String,
    at: &String,
    by: &String,
    created_at: &String,
    created_by: &String,
) -> (r: Result<Node, Error>)
    ensures
        match r {
            Ok(n) => params_violation(*params) is None && n@ == node_from(
                *params,
                id@,
                at@,
                by@,
                created_at@,
                created_by@,
            ),
            Err(e) => params_violation(*params) is Some && e@ == ErrorSpec::TypeConstraint(
                params_violation(*params)->Some_0,
            ),
        },
{
    let sources: Vec<StaleSource> = Vec::new();
    assert(sources_view(sources@) =~= Seq::<StaleSourceSpec>::empty());
    let frontmatter = NodeFrontmatter {
        id,
        title: copy_string(&params.title),
        node_type: params.node_type,
        tags: copy_strings(&params.tags),
        status: Status::Current,
        status_updated_at: copy_string(at),
        status_updated_by: copy_string(by),
        stale_sources: sources,
        created_at: copy_string(created_at),
        created_by: copy_string(created_by),
        dependencies: copy_dependencies(&params.dependencies),
        relation: copy_opt_string(&params.relation),
    };
    proof {
        lemma_violation_of_params(*params, frontmatter.id@, at@, by@, created_at@, created_by@);
    }
    frontmatter.validate_type_constraints()?;
    Ok(Node { frontmatter, content: copy_string(&params.content) })
}

/// A copy of a vector of nodes.
fn copy_nodes(v: &Vec<Node>) -> (r: Vec<Node>)
    ensures
        views(r@) == views(v@),
{
    let mut r: Vec<Node> = Vec::new();
    let mut i: usize = 0;
    while i < v.len()
        invariant
            i <= v@.len(),
            r@.len() == i,
            forall|j: int| 0 <= j < i ==> r@[j]@ == v@[j]@,
        decreases v@.len() - i,
    {
        r.push(v[i].copy());
        i = i + 1;
    }
    assert(views(r@) =~= views(v@));
    r
}

/// `v` with element `i` replaced by `n`.
fn replace_node(v: &Vec<Node>, i: usize, n: &Node) -> (r: Vec<Node>)
    requires
        i < v@.len(),
    ensures
        views(r@) == views(v@).update(i as int, n@),
{
    let mut r: Vec<Node> = Vec::new();
    let mut k: usize = 0;
    while k < v.len()
        invariant
            i < v@.len(),
            k <= v@.len(),
            r@.len() == k,
            forall|j: int| 0 <= j < k ==> r@[j]@ == views(v@).update(i as int, n@)[j],
        decreases v@.len() - k,
    {
        if k == i {
            r.push(n.copy());
        } else {
            r.push(v[k].copy());
        }
        k = k + 1;
    }
    assert(views(r@) =~= views(v@).update(i as int, n@));
    r
}

/// `v` without element `i`.
fn remove_node_at(v: &Vec<Node>, i: usize) -> (r: Vec<Node>)
    requires
        i < v@.len(),
    ensures
        views(r@) == views(v@).remove(i as int),
{
    let mut r: Vec<Node> = Vec::new();
    let mut k: usize = 0;
    while k < v.len()
        invariant
            i < v@.len(),
            k <= v@.len(),
            r@.len() == if k <= i { k as int } else { k - 1 },
            forall|j: int| 0 <= j < r@.len() ==> r@[j]@ == views(v@).remove(i as int)[j],
        decreases v@.len() - k,
    {
        if k != i {
            r.push(v[k].copy());
        }
        k = k + 1;
    }
    assert(views(r@) =~= views(v@).remove(i as int));
    r
}

proof fn lemma_update_keeps_ids(nv: Seq<NodeSpec>, i: int, n: NodeSpec)
    requires
        0 <= i < nv.len(),
        nv[i].frontmatter.id == n.frontmatter.id,
    ensures
        node_ids(nv.update(i, n)) == node_ids(nv),
{
    assert(node_ids(nv.update(i, n)) =~= node_ids(nv));
}

proof fn lemma_remove_keeps_unique(nv: Seq<NodeSpec>, i: int)
    requires
        node_ids(nv).no_duplicates(),
        0 <= i < nv.len(),
    ensures
        node_ids(nv.remove(i)).no_duplicates(),
        node_ids(nv.remove(i)) == node_ids(nv).remove(i),
{
    assert(node_ids(nv.remove(i)) =~= node_ids(nv).remove(i));
    let s = node_ids(nv);
    assert forall|p: int, q: int| 0 <= p < q < s.remove(i).len() implies s.remove(i)[p] != s.remove(
        i,
    )[q] by {
        let pp = if p < i { p } else { p + 1 };
        let qq = if q < i { q } else { q + 1 };
        assert(s.remove(i)[p] == s[pp]);
        assert(s.remove(i)[q] == s[qq]);
    }
}

proof fn lemma_push_keeps_unique(nv: Seq<NodeSpec>, n: NodeSpec)
    requires
        node_ids(nv).no_duplicates(),
        !has_node(nv, n.frontmatter.id),
    ensures
        node_ids(nv.push(n)).no_duplicates(),
{
    let s = node_ids(nv);
    assert(node_ids(nv.push(n)) =~= s.push(n.frontmatter.id));
    assert forall|p: int, q: int| 0 <= p < q < s.len() + 1 implies s.push(n.frontmatter.id)[p]
        != s.push(n.frontmatter.id)[q] by {
        if q == s.len() {
            assert(s.push(n.frontmatter.id)[p] == s[p]);
        }
    }
}

impl KnowledgeBase {
    /// Puts `node` in place of the node with its ID, or adds it last, and
    /// rebuilds the indexes.
    pub fn insert_node(&mut self, node: Node)
        ensures
            final(self).nodes_view() == upsert(old(self).nodes_view(), node@),
            final(self).root_view() == old(self).root_view(),
            final(self).config_view() == old(self).config_view(),
            final(self).duplicates_view() == old(self).duplicates_view(),
    {
        proof {
            use_type_invariant(&*self);
        }
        let ghost nv = self.nodes_view();
        match find_node(&self.nodes, &node.frontmatter.id) {
            Some(i) => {
                proof {
                    lemma_index_of_unique(nv, i as int);
                    lemma_update_keeps_ids(nv, i as int, node@);
                }
                let new_nodes = replace_node(&self.nodes, i, &node);
                self.set_nodes(new_nodes);
            },
            None => {
                let mut new_nodes = copy_nodes(&self.nodes);
                let ghost before = new_nodes@;
                new_nodes.push(node);
                assert(views(new_nodes@) =~= views(before).push(new_nodes@.last()@));
                proof {
                    lemma_push_keeps_unique(nv, new_nodes@.last()@);
                }
                self.set_nodes(new_nodes);
            },
        }
    }

    /// Checks that every dependency entry names an existing node; fails
    /// with the first one that does not.
    fn check_dependencies_exist(&self, deps: &Vec<Dependency>) -> (r: Result<(), Error>)
        ensures
            match r {
                Ok(()) => first_missing(self.nodes_view(), deps_view(deps@)) is None,
                Err(e) => first_missing(self.nodes_view(), deps_view(deps@)) is Some && e@
                    == ErrorSpec::NodeNotFound(
                    first_missing(self.nodes_view(), deps_view(deps@))->Some_0,
                ),
            },
    {
        let ghost nv = self.nodes_view();
        let ghost dv = deps_view(deps@);
        assert(dv.skip(0) =~= dv);
        let mut k: usize = 0;
        while k < deps.len()
            invariant
                nv == self.nodes_view(),
                dv == deps_view(deps@),
                k <= deps@.len(),
                dv.len() == deps@.len(),
                first_missing(nv, dv) == first_missing(nv, dv.skip(k as int)),
            decreases deps@.len() - k,
        {
            assert(dv.skip(k as int)[0] == dv[k as int]);
            assert(dv[k as int].node_id == deps@[k as int].node_id@);
            if !self.contains_node(deps[k].node_id.as_str()) {
                return Err(Error::NodeNotFound(copy_string(&deps[k].node_id)));
            }
            assert(dv.skip(k as int).drop_first() =~= dv.skip(k + 1));
            k = k + 1;
        }
        assert(dv.skip(k as int).len() == 0);
        Ok(())
    }

    /// Whether `id` is free for a new node.
    fn is_unused(&self, id: &String) -> (b: bool)
        ensures
            b == unused_id(self.nodes_view(), id@),
    {
        if self.contains_node(id.as_str()) {
            return false;
        }
        let ds = self.dependents_of(id.as_str());
        if ds.len() == 0 {
            assert forall|y: Seq<char>| !#[trigger] lists(self.nodes_view(), y, id@) by {
                if lists(self.nodes_view(), y, id@) {
                    assert(texts(ds@).contains(y));
                }
            }
            true
        } else {
            assert(texts(ds@)[0] == ds@[0]@);
            assert(texts(ds@).contains(ds@[0]@));
            assert(lists(self.nodes_view(), ds@[0]@, id@));
            false
        }
    }

    /// A node ID that is free in this knowledge base: first a few random
    /// draws, then, should they all be taken, the lowest free one.
    fn fresh_node_id(&self) -> (r: Option<String>)
        ensures
            r matches Some(id) ==> unused_id(self.nodes_view(), id@) && exists|v: nat|
                v < 0x1000000 && id@ == node_id_text(v),
            r is None ==> forall|v: nat|
                v < 0x1000000 ==> !unused_id(self.nodes_view(), #[trigger] node_id_text(v)),
    {
        let mut tries: u32 = 0;
        while tries < 8
            decreases 8 - tries,
        {
            let id = generate_node_id();
            if self.is_unused(&id) {
                return Some(id);
            }
            tries = tries + 1;
        }
        let mut v: u32 = 0;
        while v < 0x1000000
            invariant
                v <= 0x1000000,
                forall|w: nat| w < v ==> !unused_id(self.nodes_view(), #[trigger] node_id_text(w)),
            decreases 0x1000000 - v,
        {
            let id = format_node_id(v);
            if self.is_unused(&id) {
                assert(id@ == node_id_text(v as nat));
                return Some(id);
            }
            v = v + 1;
        }
        None
    }

    /// Creates a node with ID `id`, created and stamped at `now` by
    /// `username`, and adds it to the graph.
    pub fn create_node_at(&mut self, params: NodeParams, id: String, now: &String, username: &String) -> (r: Result<Node, Error>)
        ensures
            final(self).root_view() == old(self).root_view(),
            final(self).config_view() == old(self).config_view(),
            final(self).duplicates_view() == old(self).duplicates_view(),
            match r {
                Ok(n) => params_violation(params) is None && n@ == node_from(
                    params,
                    id@,
                    now@,
                    username@,
                    now@,
                    username@,
                ) && final(self).nodes_view() == upsert(old(self).nodes_view(), n@),
                Err(e) => params_violation(params) is Some && e@ == ErrorSpec::TypeConstraint(
                    params_violation(params)->Some_0,
                ) && final(self).nodes_view() == old(self).nodes_view(),
            },
    {
        proof {
            use_type_invariant(&*self);
        }
        let node = build_node(&params, id, now, username, now, username)?;
        let result = node.copy();
        self.insert_node(node);
        Ok(result)
    }

    /// Creates a new node with a fresh random ID, stamped with the current
    /// time and user, and adds it to the graph.
    ///
    /// The node must meet the type constraints and every dependency must
    /// name an existing node. Its ID is one that no node has and no
    /// dependency entry names, so it never replaces a node and the new
    /// node lies on no cycle.
    pub fn create_node(&mut self, params: NodeParams) -> (r: Result<Node, Error>)
        ensures
            final(self).root_view() == old(self).root_view(),
            final(self).config_view() == old(self).config_view(),
            final(self).duplicates_view() == old(self).duplicates_view(),
            match r {
                Ok(n) => {
                    let nv = old(self).nodes_view();
                    &&& params_violation(params) is None
                    &&& first_missing(nv, deps_view(params.dependencies@)) is None
                    &&& !has_node(nv, n@.frontmatter.id)
                    &&& unused_id(nv, n@.frontmatter.id)
                    &&& exists|v: nat, now: Seq<char>, user: Seq<char>|
                        v < 0x1000000 && n@ == #[trigger] node_from(
                            params,
                            node_id_text(v),
                            now,
                            user,
                            now,
                            user,
                        )
                    &&& final(self).nodes_view() == nv.push(n@)
                },
                Err(e) => {
                    let nv = old(self).nodes_view();
                    &&& final(self).nodes_view() == nv
                    &&& if params_violation(params) is Some {
                        e@ == ErrorSpec::TypeConstraint(params_violation(params)->Some_0)
                    } else if first_missing(nv, deps_view(params.dependencies@)) is Some {
                        e@ == ErrorSpec::NodeNotFound(
                            first_missing(nv, deps_view(params.dependencies@))->Some_0,
                        )
                    } else {
                        &&& forall|v: nat|
                            v < 0x1000000 ==> !unused_id(nv, #[trigger] node_id_text(v))
                        &&& e@ == ErrorSpec::InvalidProject("no unused node ID is left"@)
                    }
                },
            },
    {
        proof {
            use_type_invariant(&*self);
        }
        let ghost nv = self.nodes_view();
        let now = crate::util::now_iso8601();
        let username = crate::util::os_username();
        match build_node(&params, String::new(), &now, &username, &now, &username) {
            Err(e) => return Err(e),
            Ok(_) => {},
        }
        match self.check_dependencies_exist(&params.dependencies) {
            Err(e) => return Err(e),
            Ok(()) => {},
        }
        let id = match self.fresh_node_id() {
            Some(id) => id,
            None => return Err(Error::InvalidProject(String::from_str("no unused node ID is left"))),
        };
        let ghost idv = id@;
        match self.create_node_at(params, id, &now, &username) {
            Ok(n) => {
                proof {
                    let v = choose|v: nat| v < 0x1000000 && idv == node_id_text(v);
                    assert(n@ == node_from(params, node_id_text(v), now@, username@, now@, username@));
                }
                Ok(n)
            },
            Err(e) => Err(e),
        }
    }

    /// The first dependency of `params` through which node `key` (at `i`)
    /// would reach itself once given those dependencies, if any; `edited`
    /// holds the nodes with that change made.
    fn cycle_dependency(&self, i: usize, key: &String, params: &NodeParams, edited: &Vec<Node>) -> (r: Option<String>)
        requires
            i < self.nodes_view().len(),
            self.nodes_view()[i as int].frontmatter.id == key@,
            first_missing(self.nodes_view(), deps_view(params.dependencies@)) is None,
            views(edited@).len() == self.nodes_view().len(),
            forall|k: int|
                0 <= k < edited@.len() ==> #[trigger] views(edited@)[k].frontmatter.id
                    == updated_graph(self.nodes_view(), key@, *params)[k].frontmatter.id
                    && views(edited@)[k].frontmatter.dependencies == updated_graph(
                    self.nodes_view(),
                    key@,
                    *params,
                )[k].frontmatter.dependencies,
        ensures
            r matches Some(d) ==> cycle_through(self.nodes_view(), key@, *params, d@)
                && update_closes_cycle(self.nodes_view(), key@, *params),
            r is None ==> !update_closes_cycle(self.nodes_view(), key@, *params),
    {
        proof {
            use_type_invariant(&*self);
        }
        let ghost nv = self.nodes_view();
        let ghost ug = updated_graph(nv, key@, *params);
        let ghost e2 = depends_edge(ug);
        let ghost dv = ids_of_deps(deps_view(params.dependencies@));
        proof {
            lemma_index_of_unique(nv, i as int);
            assert(node_ids(ug) =~= node_ids(nv));
            lemma_same_links(ug, views(edited@));
            lemma_first_missing(nv, deps_view(params.dependencies@));
            lemma_index_of_unique(ug, i as int);
            assert(ug[i as int].frontmatter.id == key@);
            assert(dep_ids(ug[i as int].frontmatter) == dv);
        }
        let t = closure_index(edited);
        let ghost tv = adj_view(t@);
        let deps = &params.dependencies;
        let mut j: usize = 0;
        while j < deps.len()
            invariant
                nv == self.nodes_view(),
                ug == updated_graph(nv, key@, *params),
                e2 == depends_edge(ug),
                depends_edge(views(edited@)) == e2,
                dv == ids_of_deps(deps_view(params.dependencies@)),
                deps@ == params.dependencies@,
                dv.len() == deps@.len(),
                tv == adj_view(t@),
                keys(tv) == node_ids(nv),
                node_ids(ug) == node_ids(nv),
                forall|k: int|
                    0 <= k < tv.len() ==> forall|x: Seq<char>|
                        (#[trigger] tv[k]).1.contains(x) <==> reaches(e2, tv[k].0, x),
                forall|k: int| 0 <= k < deps@.len() ==> has_node(nv, #[trigger] deps_view(deps@)[k].node_id),
                j <= deps@.len(),
                i < nv.len(),
                ug.len() == nv.len(),
                ug[i as int].frontmatter.id == key@,
                dep_ids(ug[i as int].frontmatter) == dv,
                forall|m: int| 0 <= m < j ==> !cycle_through(nv, key@, *params, #[trigger] dv[m]),
            decreases deps@.len() - j,
        {
            let d = &deps[j].node_id;
            assert(deps_view(deps@)[j as int] == deps@[j as int]@);
            assert(deps_view(deps@)[j as int].node_id == d@);
            assert(ids_of_deps(deps_view(deps@))[j as int] == deps_view(deps@)[j as int].node_id);
            assert(dv[j as int] == d@);
            assert(dv.contains(d@));
            let hit = if same_text(d, key) {
                true
            } else {
                match lookup(&t, d) {
                    Some(k) => {
                        assert(tv[k as int].1 == texts(t@[k as int].1@));
                        vec_contains_text(&t[k].1, key)
                    },
                    None => {
                        proof {
                            let q = choose|q: int| 0 <= q < node_ids(nv).len() && node_ids(nv)[q] == d@;
                            assert(keys(tv)[q] == d@);
                            assert(t@[q].0@ == d@);
                        }
                        false
                    },
                }
            };
            assert(hit == cycle_through(nv, key@, *params, d@));
            if hit {
                proof {
                    assert(node_ids(ug).contains(d@));
                    assert(ug[i as int].frontmatter.id == key@);
                    assert(dep_ids(ug[i as int].frontmatter) == dv);
                    assert(lists(ug, key@, d@));
                    assert(e2(key@, d@));
                    lemma_edge_reaches(e2, key@, d@);
                    if d@ != key@ {
                        lemma_reaches_trans(e2, key@, d@, key@);
                    }
                }
                return Some(copy_string(d));
            }
            j = j + 1;
        }
        proof {
            if reaches(e2, key@, key@) {
                lemma_reaches_first_step(e2, key@, key@);
                let d = choose|d: Seq<char>| #[trigger] e2(key@, d) && (d == key@ || reaches(e2, d, key@));
                lemma_lists_at(ug, i as int, key@, d);
                assert(dep_ids(ug[i as int].frontmatter) == dv);
                let m = choose|m: int| 0 <= m < dv.len() && dv[m] == d;
                assert(cycle_through(nv, key@, *params, dv[m]));
            }
        }
        None
    }

    /// Replaces the frontmatter and content of node `id` from `params`,
    /// stamped at `now` by `username`: the node becomes current with no
    /// stale sources and keeps its creation record. Staleness then
    /// propagates from it; the second result lists the nodes it marked.
    ///
    /// The new content must meet the type constraints, every dependency
    /// must name an existing node, and the new dependencies must not put
    /// the node on a cycle; the cycle is reported as the node and the
    /// first dependency through which it would reach itself.
    pub fn update_node_at(&mut self, id: &str, params: NodeParams, now: &String, username: &String) -> (r: Result<(Node, Vec<NodeId>), Error>)
        ensures
            final(self).root_view() == old(self).root_view(),
            final(self).config_view() == old(self).config_view(),
            final(self).duplicates_view() == old(self).duplicates_view(),
            match r {
                Ok((n, affected)) => {
                    let nv = old(self).nodes_view();
                    let old_node = nv[index_of(nv, id@)];
                    let edited = nv.update(index_of(nv, id@), n@);
                    &&& has_node(nv, id@)
                    &&& params_violation(params) is None
                    &&& first_missing(nv, deps_view(params.dependencies@)) is None
                    &&& !update_closes_cycle(nv, id@, params)
                    &&& n@ == node_from(
                        params,
                        id@,
                        now@,
                        username@,
                        old_node.frontmatter.created_at,
                        old_node.frontmatter.created_by,
                    )
                    &&& final(self).nodes_view() == propagated(edited, id@, now@, username@)
                    &&& texts(affected@).no_duplicates()
                    &&& forall|y: Seq<char>| #[trigger]
                        texts(affected@).contains(y) <==> marked_by(edited, id@, y)
                    &&& in_wave_order(edited, id@, texts(affected@))
                },
                Err(e) => {
                    let nv = old(self).nodes_view();
                    &&& final(self).nodes_view() == nv
                    &&& update_error(nv, id@, params, e@)
                },
            },
    {
        proof {
            use_type_invariant(&*self);
        }
        let ghost nv = self.nodes_view();
        let key = String::from_str(id);
        let i = match find_node(&self.nodes, &key) {
            Some(i) => i,
            None => return Err(Error::NodeNotFound(key)),
        };
        proof {
            lemma_index_of_unique(nv, i as int);
        }
        let created_at = copy_string(&self.nodes[i].frontmatter.created_at);
        let created_by = copy_string(&self.nodes[i].frontmatter.created_by);
        let node = build_node(&params, copy_string(&key), now, username, &created_at, &created_by)?;
        match self.check_dependencies_exist(&params.dependencies) {
            Err(e) => return Err(e),
            Ok(()) => {},
        }
        let result = node.copy();
        proof {
            lemma_update_keeps_ids(nv, i as int, node@);
        }
        let new_nodes = replace_node(&self.nodes, i, &node);
        match self.cycle_dependency(i, &key, &params, &new_nodes) {
            Some(d) => {
                let mut path: Vec<String> = Vec::new();
                path.push(key);
                path.push(d);
                assert(texts(path@) =~= seq![id@, path@[1]@]);
                return Err(Error::CycleDetected { path });
            },
            None => {},
        }
        self.set_nodes(new_nodes);
        let affected = self.propagate_staleness_at(id, now, username);
        Ok((result, affected))
    }

    /// Replaces the frontmatter and content of node `id` from `params`,
    /// stamped with the current time and user. The node becomes current
    /// with no stale sources and keeps its creation record; staleness then
    /// propagates from it to its dependents. The same checks as in
    /// `update_node_at` apply.
    pub fn update_node(&mut self, id: &str, params: NodeParams) -> (r: Result<Node, Error>)
        ensures
            final(self).root_view() == old(self).root_view(),
            final(self).config_view() == old(self).config_view(),
            final(self).duplicates_view() == old(self).duplicates_view(),
            match r {
                Ok(n) => {
                    let nv = old(self).nodes_view();
                    let old_node = nv[index_of(nv, id@)];
                    &&& has_node(nv, id@)
                    &&& params_violation(params) is None
                    &&& first_missing(nv, deps_view(params.dependencies@)) is None
                    &&& !update_closes_cycle(nv, id@, params)
                    &&& exists|now: Seq<char>, user: Seq<char>|
                        n@ == #[trigger] node_from(
                            params,
                            id@,
                            now,
                            user,
                            old_node.frontmatter.created_at,
                            old_node.frontmatter.created_by,
                        ) && final(self).nodes_view() == propagated(
                            nv.update(index_of(nv, id@), n@),
                            id@,
                            now,
                            user,
                        )
                },
                Err(e) => {
                    let nv = old(self).nodes_view();
                    &&& final(self).nodes_view() == nv
                    &&& update_error(nv, id@, params, e@)
                },
            },
    {
        let now = crate::util::now_iso8601();
        let username = crate::util::os_username();
        match self.update_node_at(id, params, &now, &username) {
            Ok((n, _affected)) => Ok(n),
            Err(e) => Err(e),
        }
    }

    /// Removes node `i` and rebuilds the indexes.
    pub(crate) fn remove_at(&mut self, i: usize)
        requires
            i < old(self).nodes_view().len(),
        ensures
            final(self).nodes_view() == old(self).nodes_view().remove(i as int),
            final(self).root_view() == old(self).root_view(),
            final(self).config_view() == old(self).config_view(),
            final(self).duplicates_view() == old(self).duplicates_view(),
    {
        proof {
            use_type_invariant(&*self);
        }
        proof {
            lemma_remove_keeps_unique(self.nodes_view(), i as int);
        }
        let new_nodes = remove_node_at(&self.nodes, i);
        self.set_nodes(new_nodes);
    }
}

impl KnowledgeBase {
    /// Deletes node `id`. Fails when other nodes depend on it, naming them
    /// in lexicographic order.
    pub fn delete_node(&mut self, id: &str) -> (r: Result<(), Error>)
        ensures
            final(self).root_view() == old(self).root_view(),
            final(self).config_view() == old(self).config_view(),
            final(self).duplicates_view() == old(self).duplicates_view(),
            match r {
                Ok(()) => has_node(old(self).nodes_view(), id@) && (forall|y: Seq<char>|
                    !lists(old(self).nodes_view(), y, id@)) && final(self).nodes_view() == old(
                    self,
                ).nodes_view().remove(index_of(old(self).nodes_view(), id@)),
                Err(e) => final(self).nodes_view() == old(self).nodes_view() && (if !has_node(
                    old(self).nodes_view(),
                    id@,
                ) {
                    e@ == ErrorSpec::NodeNotFound(id@)
                } else {
                    e@ is DeletionBlocked && e@->DeletionBlocked_node_id == id@ && sorted(
                        e@->DeletionBlocked_dependents,
                    ) && e@->DeletionBlocked_dependents.no_duplicates() && e@->DeletionBlocked_dependents.len() > 0
                        && forall|y: Seq<char>| #[trigger]
                        e@->DeletionBlocked_dependents.contains(y) <==> lists(
                            old(self).nodes_view(),
                            y,
                            id@,
                        )
                }),
            },
    {
        proof {
            use_type_invariant(&*self);
        }
        let ghost nv = self.nodes_view();
        let key = String::from_str(id);
        let i = match find_node(&self.nodes, &key) {
            Some(i) => i,
            None => return Err(Error::NodeNotFound(key)),
        };
        proof {
            lemma_index_of_unique(nv, i as int);
        }
        let deps = self.dependents_of(id);
        if deps.len() != 0 {
            let dependents = sort_texts(&deps);
            assert(texts(deps@).contains(texts(deps@)[0]));
            assert(texts(dependents@).len() > 0);
            return Err(Error::DeletionBlocked { node_id: key, dependents });
        }
        assert forall|y: Seq<char>| !lists(nv, y, id@) by {
            if lists(nv, y, id@) {
                assert(texts(deps@).contains(y));
            }
        }
        self.remove_at(i);
        Ok(())
    }
}

} // verus!
