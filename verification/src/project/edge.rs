//! Edge create, check and delete, with cycle prevention.
use vstd::prelude::*;

use super::{
    depends_edge, find_node, has_node, index_of, lemma_index_of_unique, node_ids, views,
    KnowledgeBase,
};
use crate::error::{Error, ErrorSpec};
use crate::graph::{adj_view, keys, lookup, reaches};
use crate::model::{
    copy_dependencies, copy_opt_string, copy_sources, dep_ids, deps_view, ids_of_deps, Dependency,
    DependencySpec, EdgeAnnotation, FrontmatterSpec, Node, NodeFrontmatter, NodeSpec, NodeType,
    StaleSource, StaleSourceSpec, sources_view,
};
use crate::text::{copy_string, copy_strings, same_text, texts, vec_contains_text};

verus! {

/// Result of checking an edge deletion before executing it.
#[derive(Debug, Clone)]
pub struct EdgeDeletionCheck {
    /// True if this is the last dependency of the dependent node.
    pub is_last_dependency: bool,
    /// Title of the dependent node.
    pub node_title: String,
}

/// `deps` without the entries naming `id`.
pub open spec fn without_dep(deps: Seq<DependencySpec>, id: Seq<char>) -> Seq<DependencySpec>
    decreases deps.len(),
{
    if deps.len() == 0 {
        Seq::empty()
    } else {
        let r = without_dep(deps.drop_last(), id);
        if deps.last().node_id == id {
            r
        } else {
            r.push(deps.last())
        }
    }
}

/// `deps` with the annotation of each entry naming `id` set to `ann`.
pub open spec fn reannotated(deps: Seq<DependencySpec>, id: Seq<char>, ann: Option<Seq<char>>) -> Seq<
    DependencySpec,
> {
    Seq::new(
        deps.len(),
        |i: int|
            if deps[i].node_id == id {
                DependencySpec { node_id: id, annotation: ann }
            } else {
                deps[i]
            },
    )
}

/// `n` with its dependencies replaced by `deps`.
pub open spec fn with_deps(n: NodeSpec, deps: Seq<DependencySpec>) -> NodeSpec {
    NodeSpec { frontmatter: FrontmatterSpec { dependencies: deps, ..n.frontmatter }, content: n.content }
}

/// `nv` with the dependency `a → b`, annotated `ann`, added last to node
/// `a`'s list.
pub open spec fn with_edge(nv: Seq<NodeSpec>, a: Seq<char>, b: Seq<char>, ann: Option<Seq<char>>) -> Seq<NodeSpec> {
    let i = index_of(nv, a);
    nv.update(
        i,
        with_deps(nv[i], nv[i].frontmatter.dependencies.push(DependencySpec { node_id: b, annotation: ann })),
    )
}

/// `n` made an axiom with dependencies `deps`, no relation and no stale sources.
pub open spec fn as_axiom(n: NodeSpec, deps: Seq<DependencySpec>) -> NodeSpec {
    NodeSpec {
        frontmatter: FrontmatterSpec {
            dependencies: deps,
            node_type: NodeType::Axiom,
            relation: None,
            stale_sources: Seq::empty(),
            ..n.frontmatter
        },
        content: n.content,
    }
}

/// The label of an optional annotation.
pub open spec fn opt_label(a: Option<EdgeAnnotation>) -> Option<Seq<char>> {
    match a {
        Some(x) => Some(x.label@),
        None => None,
    }
}

/// The node at `i` with `f` applied, other nodes copied.
fn node_with_frontmatter(n: &Node, fm: NodeFrontmatter) -> (r: Node)
    ensures
        r@ == (NodeSpec { frontmatter: fm@, content: n.content@ }),
{
    Node { frontmatter: fm, content: copy_string(&n.content) }
}

fn frontmatter_with(
    fm: &NodeFrontmatter,
    node_type: NodeType,
    dependencies: Vec<Dependency>,
    relation: Option<String>,
    stale_sources: Vec<StaleSource>,
) -> (r: NodeFrontmatter)
    ensures
        r@ == (FrontmatterSpec {
            node_type,
            dependencies: deps_view(dependencies@),
            relation: crate::model::opt_text(relation),
            stale_sources: sources_view(stale_sources@),
            ..fm@
        }),
{
    NodeFrontmatter {
        id: copy_string(&fm.id),
        title: copy_string(&fm.title),
        node_type,
        tags: copy_strings(&fm.tags),
        status: fm.status,
        status_updated_at: copy_string(&fm.status_updated_at),
        status_updated_by: copy_string(&fm.status_updated_by),
        stale_sources,
        created_at: copy_string(&fm.created_at),
        created_by: copy_string(&fm.created_by),
        dependencies,
        relation,
    }
}

/// Whether `deps` names `id`.
fn lists_dep(deps: &Vec<Dependency>, id: &String) -> (r: bool)
    ensures
        r == ids_of_deps(deps_view(deps@)).contains(id@),
{
    let ghost ids = ids_of_deps(deps_view(deps@));
    let mut k: usize = 0;
    while k < deps.len()
        invariant
            ids == ids_of_deps(deps_view(deps@)),
            ids.len() == deps@.len(),
            k <= deps@.len(),
            forall|m: int| 0 <= m < k ==> ids[m] != id@,
        decreases deps@.len() - k,
    {
        assert(ids[k as int] == deps@[k as int].node_id@);
        if same_text(&deps[k].node_id, id) {
            return true;
        }
        k = k + 1;
    }
    false
}

/// `deps` without the entries naming `id`.
/// Whether every entry of `deps` names `id`, so that removing `id` would
/// leave none.
fn all_entries_name(deps: &Vec<Dependency>, id: &String) -> (b: bool)
    ensures
        b == (forall|k: int| 0 <= k < deps@.len() ==> #[trigger] deps_view(deps@)[k].node_id == id@),
{
    let mut k: usize = 0;
    while k < deps.len()
        invariant
            k <= deps@.len(),
            forall|j: int| 0 <= j < k ==> #[trigger] deps_view(deps@)[j].node_id == id@,
        decreases deps@.len() - k,
    {
        assert(deps_view(deps@)[k as int].node_id == deps@[k as int].node_id@);
        if !same_text(&deps[k].node_id, id) {
            return false;
        }
        k = k + 1;
    }
    true
}

fn remove_dep(deps: &Vec<Dependency>, id: &String) -> (r: Vec<Dependency>)
    ensures
        deps_view(r@) == without_dep(deps_view(deps@), id@),
{
    let ghost dv = deps_view(deps@);
    let mut r: Vec<Dependency> = Vec::new();
    let mut k: usize = 0;
    while k < deps.len()
        invariant
            dv == deps_view(deps@),
            k <= deps@.len(),
            deps_view(r@) == without_dep(dv.take(k as int), id@),
        decreases deps@.len() - k,
    {
        assert(dv.take(k + 1).drop_last() =~= dv.take(k as int));
        assert(dv.take(k + 1).last() == deps@[k as int]@);
        let ghost before = r@;
        if !same_text(&deps[k].node_id, id) {
            r.push(deps[k].copy());
            assert(deps_view(r@) =~= deps_view(before).push(deps@[k as int]@));
        }
        k = k + 1;
    }
    assert(dv.take(k as int) =~= dv);
    r
}

proof fn lemma_without_dep_len(deps: Seq<DependencySpec>, id: Seq<char>)
    ensures
        without_dep(deps, id).len() <= deps.len(),
        without_dep(deps, id).len() == deps.len() <==> !ids_of_deps(deps).contains(id),
        forall|x: Seq<char>| x != id ==> (#[trigger] ids_of_deps(without_dep(deps, id)).contains(x) <==> ids_of_deps(deps).contains(x)),
        !ids_of_deps(without_dep(deps, id)).contains(id),
    decreases deps.len(),
{
        if deps.len() > 0 {
        let p = deps.drop_last();
        lemma_without_dep_len(p, id);
        assert(ids_of_deps(deps) =~= ids_of_deps(p).push(deps.last().node_id));
        let w = without_dep(p, id);
        if deps.last().node_id != id {
            assert(ids_of_deps(without_dep(deps, id)) =~= ids_of_deps(w).push(deps.last().node_id));
        }
        assert forall|x: Seq<char>| #[trigger] ids_of_deps(without_dep(deps, id)).contains(x) <==> (
        x != id && ids_of_deps(deps).contains(x)) by {
            crate::text::lemma_push_contains(ids_of_deps(p), deps.last().node_id, x);
            crate::text::lemma_push_contains(ids_of_deps(w), deps.last().node_id, x);
        }
        crate::text::lemma_push_contains(ids_of_deps(p), deps.last().node_id, id);
    } else {
        assert(ids_of_deps(deps) =~= Seq::<Seq<char>>::empty());
        assert(ids_of_deps(without_dep(deps, id)) =~= Seq::<Seq<char>>::empty());
    }
}

/// `deps` with each entry naming `id` re-annotated.
fn reannotate(deps: &Vec<Dependency>, id: &String, ann: &Option<EdgeAnnotation>) -> (r: Vec<Dependency>)
    ensures
        deps_view(r@) == reannotated(deps_view(deps@), id@, opt_label(*ann)),
{
    let ghost dv = deps_view(deps@);
    let ghost target = reannotated(dv, id@, opt_label(*ann));
    let mut r: Vec<Dependency> = Vec::new();
    let mut k: usize = 0;
    while k < deps.len()
        invariant
            dv == deps_view(deps@),
            target == reannotated(dv, id@, opt_label(*ann)),
            k <= deps@.len(),
            r@.len() == k,
            forall|m: int| 0 <= m < k ==> #[trigger] r@[m]@ == target[m],
        decreases deps@.len() - k,
    {
        assert(dv[k as int] == deps@[k as int]@);
        if same_text(&deps[k].node_id, id) {
            let a = match ann {
                Some(x) => Some(x.copy()),
                None => None,
            };
            r.push(Dependency { node_id: copy_string(id), annotation: a });
        } else {
            r.push(deps[k].copy());
        }
        k = k + 1;
    }
    assert(deps_view(r@) =~= target);
    r
}

impl KnowledgeBase {
    /// Whether adding the edge `dependent → dependency` would close a
    /// cycle: the two are the same node, or `dependency` already depends,
    /// transitively, on `dependent`.
    fn would_create_cycle(&self, dependency_id: &String, dependent_id: &String) -> (r: bool)
        requires
            has_node(self.nodes_view(), dependency_id@),
        ensures
            r == (dependency_id@ == dependent_id@ || reaches(
                depends_edge(self.nodes_view()),
                dependency_id@,
                dependent_id@,
            )),
    {
        proof {
            use_type_invariant(&*self);
        }
        if same_text(dependency_id, dependent_id) {
            return true;
        }
        let ghost t = adj_view(self.dependencies@);
        match lookup(&self.dependencies, dependency_id) {
            Some(k) => {
                assert(t[k as int].1 == texts(self.dependencies@[k as int].1@));
                assert(keys(t)[k as int] == dependency_id@);
                vec_contains_text(&self.dependencies[k].1, dependent_id)
            },
            None => {
                proof {
                    let j = choose|j: int|
                        0 <= j < node_ids(self.nodes_view()).len() && node_ids(
                            self.nodes_view(),
                        )[j] == dependency_id@;
                    assert(keys(t)[j] == dependency_id@);
                    assert(self.dependencies@[j].0@ == dependency_id@);
                }
                false
            },
        }
    }

    /// Replaces node `i` by `n` (same ID) and rebuilds the indexes.
    fn put_at(&mut self, i: usize, n: Node)
        requires
            i < old(self).nodes_view().len(),
            n@.frontmatter.id == old(self).nodes_view()[i as int].frontmatter.id,
        ensures
            final(self).nodes_view() == old(self).nodes_view().update(i as int, n@),
            final(self).root_view() == old(self).root_view(),
            final(self).config_view() == old(self).config_view(),
            final(self).duplicates_view() == old(self).duplicates_view(),
    {
        proof {
            use_type_invariant(&*self);
        }
        let ghost nv = self.nodes_view();
        let mut new_nodes: Vec<Node> = Vec::new();
        let mut k: usize = 0;
        while k < self.nodes.len()
            invariant
                nv == self.nodes_view(),
                i < nv.len(),
                k <= nv.len(),
                new_nodes@.len() == k,
                forall|m: int| 0 <= m < k ==> #[trigger] new_nodes@[m]@ == nv.update(i as int, n@)[m],
            decreases nv.len() - k,
        {
            assert(nv[k as int] == self.nodes@[k as int]@);
            if k == i {
                new_nodes.push(n.copy());
            } else {
                new_nodes.push(self.nodes[k].copy());
            }
            k = k + 1;
        }
        assert(views(new_nodes@) =~= nv.update(i as int, n@));
        assert(node_ids(views(new_nodes@)) =~= node_ids(nv));
        self.set_nodes(new_nodes);
    }

    /// Adds the dependency edge `dependent → dependency`, with an optional
    /// annotation.
    ///
    /// Both nodes must exist, the edge must be new, and it must not close a
    /// cycle.
    pub fn create_edge(&mut self, dependent_id: &str, dependency_id: &str, annotation: Option<EdgeAnnotation>) -> (r: Result<(), Error>)
        ensures
            final(self).root_view() == old(self).root_view(),
            final(self).config_view() == old(self).config_view(),
            final(self).duplicates_view() == old(self).duplicates_view(),
            ({
                let nv = old(self).nodes_view();
                let i = index_of(nv, dependent_id@);
                match r {
                    Ok(()) => {
                        &&& has_node(nv, dependent_id@)
                        &&& has_node(nv, dependency_id@)
                        &&& !dep_ids(nv[i].frontmatter).contains(dependency_id@)
                        &&& dependency_id@ != dependent_id@
                        &&& !reaches(depends_edge(nv), dependency_id@, dependent_id@)
                        &&& final(self).nodes_view() == with_edge(
                            nv,
                            dependent_id@,
                            dependency_id@,
                            opt_label(annotation),
                        )
                    },
                    Err(e) => final(self).nodes_view() == nv && if !has_node(nv, dependent_id@) {
                        e@ == ErrorSpec::NodeNotFound(dependent_id@)
                    } else if !has_node(nv, dependency_id@) {
                        e@ == ErrorSpec::NodeNotFound(dependency_id@)
                    } else if dep_ids(nv[i].frontmatter).contains(dependency_id@) {
                        e@ == ErrorSpec::EdgeAlreadyExists { from: dependent_id@, to: dependency_id@ }
                    } else {
                        (dependency_id@ == dependent_id@ || reaches(
                            depends_edge(nv),
                            dependency_id@,
                            dependent_id@,
                        )) && e@ == ErrorSpec::CycleDetected {
                            path: seq![dependent_id@, dependency_id@],
                        }
                    },
                }
            }),
    {
        proof {
            use_type_invariant(&*self);
        }
        let ghost nv = self.nodes_view();
        let from = String::from_str(dependent_id);
        let to = String::from_str(dependency_id);
        let i = match find_node(&self.nodes, &from) {
            Some(i) => i,
            None => return Err(Error::NodeNotFound(from)),
        };
        proof {
            lemma_index_of_unique(nv, i as int);
        }
        match find_node(&self.nodes, &to) {
            Some(j) => {
                proof {
                    lemma_index_of_unique(nv, j as int);
                    assert(node_ids(nv)[j as int] == to@);
                }
            },
            None => return Err(Error::NodeNotFound(to)),
        }
        assert(dep_ids(nv[i as int].frontmatter) == ids_of_deps(deps_view(
            self.nodes@[i as int].frontmatter.dependencies@,
        )));
        if lists_dep(&self.nodes[i].frontmatter.dependencies, &to) {
            return Err(Error::EdgeAlreadyExists { from, to });
        }
        if self.would_create_cycle(&to, &from) {
            let mut path: Vec<String> = Vec::new();
            path.push(from);
            path.push(to);
            assert(texts(path@) =~= seq![dependent_id@, dependency_id@]);
            return Err(Error::CycleDetected { path });
        }
        let n = &self.nodes[i];
        let mut deps = copy_dependencies(&n.frontmatter.dependencies);
        let ghost d0 = deps_view(deps@);
        let ann = match &annotation {
            Some(a) => Some(a.copy()),
            None => None,
        };
        deps.push(Dependency { node_id: to, annotation: ann });
        assert(deps_view(deps@) =~= d0.push(
            DependencySpec { node_id: dependency_id@, annotation: opt_label(annotation) },
        ));
        let fm = frontmatter_with(
            &n.frontmatter,
            n.frontmatter.node_type,
            deps,
            copy_opt_string(&n.frontmatter.relation),
            copy_sources(&n.frontmatter.stale_sources),
        );
        let updated = node_with_frontmatter(n, fm);
        self.put_at(i, updated);
        Ok(())
    }

    /// Checks whether deleting the edge `dependent → dependency` would
    /// leave the dependent node with no dependencies: the flag is set when
    /// every dependency entry names `dependency`, since deleting the edge
    /// removes every entry naming it.
    pub fn validate_edge_deletion(&self, dependent_id: &str, dependency_id: &str) -> (r: Result<EdgeDeletionCheck, Error>)
        ensures
            ({
                let nv = self.nodes_view();
                let n = nv[index_of(nv, dependent_id@)];
                match r {
                    Ok(c) => has_node(nv, dependent_id@) && dep_ids(n.frontmatter).contains(
                        dependency_id@,
                    ) && c.is_last_dependency == (forall|k: int|
                        0 <= k < n.frontmatter.dependencies.len()
                            ==> #[trigger] n.frontmatter.dependencies[k].node_id == dependency_id@)
                        && c.node_title@ == n.frontmatter.title,
                    Err(e) => if !has_node(nv, dependent_id@) {
                        e@ == ErrorSpec::NodeNotFound(dependent_id@)
                    } else {
                        !dep_ids(n.frontmatter).contains(dependency_id@) && e@
                            == ErrorSpec::EdgeNotFound { from: dependent_id@, to: dependency_id@ }
                    },
                }
            }),
    {
        proof {
            use_type_invariant(&*self);
        }
        let ghost nv = self.nodes_view();
        let from = String::from_str(dependent_id);
        let to = String::from_str(dependency_id);
        let i = match find_node(&self.nodes, &from) {
            Some(i) => i,
            None => return Err(Error::NodeNotFound(from)),
        };
        proof {
            lemma_index_of_unique(nv, i as int);
        }
        let n = &self.nodes[i];
        assert(dep_ids(nv[i as int].frontmatter) == ids_of_deps(deps_view(n.frontmatter.dependencies@)));
        if !lists_dep(&n.frontmatter.dependencies, &to) {
            return Err(Error::EdgeNotFound { from, to });
        }
        Ok(
            EdgeDeletionCheck {
                is_last_dependency: all_entries_name(&n.frontmatter.dependencies, &to),
                node_title: copy_string(&n.frontmatter.title),
            },
        )
    }

    /// Removes the dependency edge `dependent → dependency` (every entry
    /// naming it), keeping the node's type.
    pub fn delete_edge(&mut self, dependent_id: &str, dependency_id: &str) -> (r: Result<(), Error>)
        ensures
            final(self).root_view() == old(self).root_view(),
            final(self).config_view() == old(self).config_view(),
            final(self).duplicates_view() == old(self).duplicates_view(),
            ({
                let nv = old(self).nodes_view();
                let i = index_of(nv, dependent_id@);
                match r {
                    Ok(()) => has_node(nv, dependent_id@) && dep_ids(nv[i].frontmatter).contains(
                        dependency_id@,
                    ) && final(self).nodes_view() == nv.update(
                        i,
                        with_deps(nv[i], without_dep(nv[i].frontmatter.dependencies, dependency_id@)),
                    ),
                    Err(e) => final(self).nodes_view() == nv && if !has_node(nv, dependent_id@) {
                        e@ == ErrorSpec::NodeNotFound(dependent_id@)
                    } else {
                        !dep_ids(nv[i].frontmatter).contains(dependency_id@) && e@
                            == ErrorSpec::EdgeNotFound { from: dependent_id@, to: dependency_id@ }
                    },
                }
            }),
    {
        proof {
            use_type_invariant(&*self);
        }
        let ghost nv = self.nodes_view();
        let from = String::from_str(dependent_id);
        let to = String::from_str(dependency_id);
        let i = match find_node(&self.nodes, &from) {
            Some(i) => i,
            None => return Err(Error::NodeNotFound(from)),
        };
        proof {
            lemma_index_of_unique(nv, i as int);
        }
        let n = &self.nodes[i];
        let deps = remove_dep(&n.frontmatter.dependencies, &to);
        proof {
            lemma_without_dep_len(deps_view(n.frontmatter.dependencies@), to@);
        }
        assert(dep_ids(nv[i as int].frontmatter) == ids_of_deps(deps_view(n.frontmatter.dependencies@)));
        if deps.len() == n.frontmatter.dependencies.len() {
            return Err(Error::EdgeNotFound { from, to });
        }
        let fm = frontmatter_with(
            &n.frontmatter,
            n.frontmatter.node_type,
            deps,
            copy_opt_string(&n.frontmatter.relation),
            copy_sources(&n.frontmatter.stale_sources),
        );
        let updated = node_with_frontmatter(n, fm);
        self.put_at(i, updated);
        Ok(())
    }

    /// Removes the dependency edge `dependent → dependency` and converts
    /// the dependent node to an axiom: no relation, no stale sources.
    pub fn remove_dependency_and_convert_to_axiom(&mut self, dependent_id: &str, dependency_id: &str) -> (r: Result<(), Error>)
        ensures
            final(self).root_view() == old(self).root_view(),
            final(self).config_view() == old(self).config_view(),
            final(self).duplicates_view() == old(self).duplicates_view(),
            ({
                let nv = old(self).nodes_view();
                let i = index_of(nv, dependent_id@);
                match r {
                    Ok(()) => has_node(nv, dependent_id@) && dep_ids(nv[i].frontmatter).contains(
                        dependency_id@,
                    ) && final(self).nodes_view() == nv.update(
                        i,
                        as_axiom(nv[i], without_dep(nv[i].frontmatter.dependencies, dependency_id@)),
                    ),
                    Err(e) => final(self).nodes_view() == nv && if !has_node(nv, dependent_id@) {
                        e@ == ErrorSpec::NodeNotFound(dependent_id@)
                    } else {
                        !dep_ids(nv[i].frontmatter).contains(dependency_id@) && e@
                            == ErrorSpec::EdgeNotFound { from: dependent_id@, to: dependency_id@ }
                    },
                }
            }),
    {
        proof {
            use_type_invariant(&*self);
        }
        let ghost nv = self.nodes_view();
        let from = String::from_str(dependent_id);
        let to = String::from_str(dependency_id);
        let i = match find_node(&self.nodes, &from) {
            Some(i) => i,
            None => return Err(Error::NodeNotFound(from)),
        };
        proof {
            lemma_index_of_unique(nv, i as int);
        }
        let n = &self.nodes[i];
        let deps = remove_dep(&n.frontmatter.dependencies, &to);
        proof {
            lemma_without_dep_len(deps_view(n.frontmatter.dependencies@), to@);
        }
        assert(dep_ids(nv[i as int].frontmatter) == ids_of_deps(deps_view(n.frontmatter.dependencies@)));
        if deps.len() == n.frontmatter.dependencies.len() {
            return Err(Error::EdgeNotFound { from, to });
        }
        let sources: Vec<StaleSource> = Vec::new();
        assert(sources_view(sources@) =~= Seq::<StaleSourceSpec>::empty());
        let fm = frontmatter_with(&n.frontmatter, NodeType::Axiom, deps, None, sources);
        let updated = node_with_frontmatter(n, fm);
        self.put_at(i, updated);
        Ok(())
    }

    /// Sets (or, with `None`, removes) the annotation of the edge
    /// `dependent → dependency`.
    pub fn update_edge_annotation(&mut self, dependent_id: &str, dependency_id: &str, annotation: Option<EdgeAnnotation>) -> (r: Result<(), Error>)
        ensures
            final(self).root_view() == old(self).root_view(),
            final(self).config_view() == old(self).config_view(),
            final(self).duplicates_view() == old(self).duplicates_view(),
            ({
                let nv = old(self).nodes_view();
                let i = index_of(nv, dependent_id@);
                match r {
                    Ok(()) => has_node(nv, dependent_id@) && dep_ids(nv[i].frontmatter).contains(
                        dependency_id@,
                    ) && final(self).nodes_view() == nv.update(
                        i,
                        with_deps(
                            nv[i],
                            reannotated(
                                nv[i].frontmatter.dependencies,
                                dependency_id@,
                                opt_label(annotation),
                            ),
                        ),
                    ),
                    Err(e) => final(self).nodes_view() == nv && if !has_node(nv, dependent_id@) {
                        e@ == ErrorSpec::NodeNotFound(dependent_id@)
                    } else {
                        !dep_ids(nv[i].frontmatter).contains(dependency_id@) && e@
                            == ErrorSpec::EdgeNotFound { from: dependent_id@, to: dependency_id@ }
                    },
                }
            }),
    {
        proof {
            use_type_invariant(&*self);
        }
        let ghost nv = self.nodes_view();
        let from = String::from_str(dependent_id);
        let to = String::from_str(dependency_id);
        let i = match find_node(&self.nodes, &from) {
            Some(i) => i,
            None => return Err(Error::NodeNotFound(from)),
        };
        proof {
            lemma_index_of_unique(nv, i as int);
        }
        let n = &self.nodes[i];
        assert(dep_ids(nv[i as int].frontmatter) == ids_of_deps(deps_view(n.frontmatter.dependencies@)));
        if !lists_dep(&n.frontmatter.dependencies, &to) {
            return Err(Error::EdgeNotFound { from, to });
        }
        let deps = reannotate(&n.frontmatter.dependencies, &to, &annotation);
        let fm = frontmatter_with(
            &n.frontmatter,
            n.frontmatter.node_type,
            deps,
            copy_opt_string(&n.frontmatter.relation),
            copy_sources(&n.frontmatter.stale_sources),
        );
        let updated = node_with_frontmatter(n, fm);
        self.put_at(i, updated);
        Ok(())
    }
}

} // verus!
