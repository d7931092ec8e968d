//! The node data model: frontmatter fields, dependencies, staleness records.
use vstd::prelude::*;

use crate::error::{Error, ErrorSpec};
use crate::text::{copy_string, copy_strings, same_text, texts};

verus! {

/// Node identifier, e.g. `"n-4a7b2c"`.
pub type NodeId = String;

/// Whether a node is foundational (`axiom`) or derived (`deduction`).
#[derive(Debug, Clone, Copy, PartialEq, Eq)]
pub enum NodeType {
    Axiom,
    Deduction,
}

/// Staleness lifecycle status.
#[derive(Debug, Clone, Copy, PartialEq, Eq)]
pub enum Status {
    Current,
    Stale,
}

/// An optional label on an edge.
#[derive(Debug, Clone, PartialEq, Eq)]
pub struct EdgeAnnotation {
    pub label: String,
}

/// A dependency entry in a node's frontmatter.
#[derive(Debug, Clone, PartialEq, Eq)]
pub struct Dependency {
    pub node_id: NodeId,
    pub annotation: Option<EdgeAnnotation>,
}

/// Records which dependency triggered staleness and when.
#[derive(Debug, Clone, PartialEq, Eq)]
pub struct StaleSource {
    pub node_id: NodeId,
    pub changed_at: String,
}

/// The frontmatter of a node file.
#[derive(Debug, Clone, PartialEq)]
pub struct NodeFrontmatter {
    pub id: NodeId,
    pub title: String,
    pub node_type: NodeType,
    pub tags: Vec<String>,
    pub status: Status,
    pub status_updated_at: String,
    pub status_updated_by: String,
    pub stale_sources: Vec<StaleSource>,
    pub created_at: String,
    pub created_by: String,
    pub dependencies: Vec<Dependency>,
    pub relation: Option<String>,
}

/// A complete node: frontmatter plus the raw markdown body.
#[derive(Debug, Clone, PartialEq)]
pub struct Node {
    pub frontmatter: NodeFrontmatter,
    pub content: String,
}

// ── Mathematical values ──────────────────────────────────

/// The mathematical value of a dependency entry.
pub struct DependencySpec {
    pub node_id: Seq<char>,
    pub annotation: Option<Seq<char>>,
}

/// The mathematical value of a stale-source record.
pub struct StaleSourceSpec {
    pub node_id: Seq<char>,
    pub changed_at: Seq<char>,
}

/// The mathematical value of a frontmatter.
pub struct FrontmatterSpec {
    pub id: Seq<char>,
    pub title: Seq<char>,
    pub node_type: NodeType,
    pub tags: Seq<Seq<char>>,
    pub status: Status,
    pub status_updated_at: Seq<char>,
    pub status_updated_by: Seq<char>,
    pub stale_sources: Seq<StaleSourceSpec>,
    pub created_at: Seq<char>,
    pub created_by: Seq<char>,
    pub dependencies: Seq<DependencySpec>,
    pub relation: Option<Seq<char>>,
}

/// The mathematical value of a node.
pub struct NodeSpec {
    pub frontmatter: FrontmatterSpec,
    pub content: Seq<char>,
}

/// The text of an optional string.
pub open spec fn opt_text(o: Option<String>) -> Option<Seq<char>> {
    match o {
        Some(s) => Some(s@),
        None => None,
    }
}

impl View for EdgeAnnotation {
    type V = Seq<char>;

    open spec fn view(&self) -> Seq<char> {
        self.label@
    }
}

impl View for Dependency {
    type V = DependencySpec;

    open spec fn view(&self) -> DependencySpec {
        DependencySpec {
            node_id: self.node_id@,
            annotation: match self.annotation {
                Some(a) => Some(a.label@),
                None => None,
            },
        }
    }
}

impl View for StaleSource {
    type V = StaleSourceSpec;

    open spec fn view(&self) -> StaleSourceSpec {
        StaleSourceSpec { node_id: self.node_id@, changed_at: self.changed_at@ }
    }
}

/// The values of a sequence of dependency entries.
pub open spec fn deps_view(v: Seq<Dependency>) -> Seq<DependencySpec> {
    v.map_values(|d: Dependency| d@)
}

/// The values of a sequence of stale-source records.
pub open spec fn sources_view(v: Seq<StaleSource>) -> Seq<StaleSourceSpec> {
    v.map_values(|s: StaleSource| s@)
}

impl View for NodeFrontmatter {
    type V = FrontmatterSpec;

    open spec fn view(&self) -> FrontmatterSpec {
        FrontmatterSpec {
            id: self.id@,
            title: self.title@,
            node_type: self.node_type,
            tags: texts(self.tags@),
            status: self.status,
            status_updated_at: self.status_updated_at@,
            status_updated_by: self.status_updated_by@,
            stale_sources: sources_view(self.stale_sources@),
            created_at: self.created_at@,
            created_by: self.created_by@,
            dependencies: deps_view(self.dependencies@),
            relation: opt_text(self.relation),
        }
    }
}

impl View for Node {
    type V = NodeSpec;

    open spec fn view(&self) -> NodeSpec {
        NodeSpec { frontmatter: self.frontmatter@, content: self.content@ }
    }
}

/// The IDs that a frontmatter lists as dependencies, in order.
pub open spec fn dep_ids(fm: FrontmatterSpec) -> Seq<Seq<char>> {
    ids_of_deps(fm.dependencies)
}

/// The IDs that dependency entries name, in order.
pub open spec fn ids_of_deps(deps: Seq<DependencySpec>) -> Seq<Seq<char>> {
    deps.map_values(|d: DependencySpec| d.node_id)
}

// ── Type constraints ─────────────────────────────────────

/// The first axiom/deduction constraint that `fm` breaks, if any.
///
/// - Axiom: empty dependencies, no relation, no stale sources.
/// - Deduction: at least one dependency, a relation.
pub open spec fn type_violation(fm: FrontmatterSpec) -> Option<Seq<char>> {
    match fm.node_type {
        NodeType::Axiom => if fm.dependencies.len() != 0 {
            Some("axiom nodes must have empty dependencies"@)
        } else if fm.relation is Some {
            Some("axiom nodes must not have a relation expression"@)
        } else if fm.stale_sources.len() != 0 {
            Some("axiom nodes must not have stale_sources"@)
        } else {
            None
        },
        NodeType::Deduction => if fm.dependencies.len() == 0 {
            Some("deduction nodes must have at least one dependency"@)
        } else if fm.relation is None {
            Some("deduction nodes must have a relation expression"@)
        } else {
            None
        },
    }
}

impl NodeFrontmatter {
    /// Checks the axiom/deduction type constraints.
    pub fn validate_type_constraints(&self) -> (r: Result<(), Error>)
        ensures
            match r {
                Ok(()) => type_violation(self@) is None,
                Err(e) => type_violation(self@) is Some && e@ == ErrorSpec::TypeConstraint(
                    type_violation(self@)->Some_0,
                ),
            },
    {
        match self.node_type {
            NodeType::Axiom => {
                if self.dependencies.len() != 0 {
                    return Err(
                        Error::TypeConstraint(
                            String::from_str("axiom nodes must have empty dependencies"),
                        ),
                    );
                }
                if self.relation.is_some() {
                    return Err(
                        Error::TypeConstraint(
                            String::from_str("axiom nodes must not have a relation expression"),
                        ),
                    );
                }
                if self.stale_sources.len() != 0 {
                    return Err(
                        Error::TypeConstraint(
                            String::from_str("axiom nodes must not have stale_sources"),
                        ),
                    );
                }
            },
            NodeType::Deduction => {
                if self.dependencies.len() == 0 {
                    return Err(
                        Error::TypeConstraint(
                            String::from_str("deduction nodes must have at least one dependency"),
                        ),
                    );
                }
                if self.relation.is_none() {
                    return Err(
                        Error::TypeConstraint(
                            String::from_str("deduction nodes must have a relation expression"),
                        ),
                    );
                }
            },
        }
        Ok(())
    }
}

// ── Copies ───────────────────────────────────────────────

/// A copy of an optional string.
pub fn copy_opt_string(o: &Option<String>) -> (r: Option<String>)
    ensures
        opt_text(r) == opt_text(*o),
{
    match o {
        Some(s) => Some(copy_string(s)),
        None => None,
    }
}

impl EdgeAnnotation {
    /// A copy with the same label.
    pub fn copy(&self) -> (r: EdgeAnnotation)
        ensures
            r@ == self@,
    {
        EdgeAnnotation { label: copy_string(&self.label) }
    }
}

impl Dependency {
    /// A copy with the same contents.
    pub fn copy(&self) -> (r: Dependency)
        ensures
            r@ == self@,
    {
        let annotation = match &self.annotation {
            Some(a) => Some(a.copy()),
            None => None,
        };
        Dependency { node_id: copy_string(&self.node_id), annotation }
    }
}

impl StaleSource {
    /// A copy with the same contents.
    pub fn copy(&self) -> (r: StaleSource)
        ensures
            r@ == self@,
    {
        StaleSource { node_id: copy_string(&self.node_id), changed_at: copy_string(&self.changed_at) }
    }
}

/// A copy of a list of dependency entries.
pub fn copy_dependencies(v: &Vec<Dependency>) -> (r: Vec<Dependency>)
    ensures
        deps_view(r@) == deps_view(v@),
{
    let mut r: Vec<Dependency> = Vec::new();
    let mut i: usize = 0;
    while i < v.len()
        invariant
            i <= v@.len(),
            r@.len() == i,
            forall|j: int| 0 <= j < i ==> r@[j]@ == v@[j]@,
        decreases v@.len() - i,
    {
        r.push(v[i].copy());
        i = i + 1;
    }
    assert(deps_view(r@) =~= deps_view(v@));
    r
}

/// A copy of a list of stale-source records.
pub fn copy_sources(v: &Vec<StaleSource>) -> (r: Vec<StaleSource>)
    ensures
        sources_view(r@) == sources_view(v@),
{
    let mut r: Vec<StaleSource> = Vec::new();
    let mut i: usize = 0;
    while i < v.len()
        invariant
            i <= v@.len(),
            r@.len() == i,
            forall|j: int| 0 <= j < i ==> r@[j]@ == v@[j]@,
        decreases v@.len() - i,
    {
        r.push(v[i].copy());
        i = i + 1;
    }
    assert(sources_view(r@) =~= sources_view(v@));
    r
}

impl NodeFrontmatter {
    /// A copy with the same contents.
    pub fn copy(&self) -> (r: NodeFrontmatter)
        ensures
            r@ == self@,
    {
        NodeFrontmatter {
            id: copy_string(&self.id),
            title: copy_string(&self.title),
            node_type: self.node_type,
            tags: copy_strings(&self.tags),
            status: self.status,
            status_updated_at: copy_string(&self.status_updated_at),
            status_updated_by: copy_string(&self.status_updated_by),
            stale_sources: copy_sources(&self.stale_sources),
            created_at: copy_string(&self.created_at),
            created_by: copy_string(&self.created_by),
            dependencies: copy_dependencies(&self.dependencies),
            relation: copy_opt_string(&self.relation),
        }
    }
}

impl Node {
    /// A copy with the same contents.
    pub fn copy(&self) -> (r: Node)
        ensures
            r@ == self@,
    {
        Node { frontmatter: self.frontmatter.copy(), content: copy_string(&self.content) }
    }
}

// ── Equality ─────────────────────────────────────────────

fn same_opt_string(a: &Option<String>, b: &Option<String>) -> (r: bool)
    ensures
        r == (opt_text(*a) == opt_text(*b)),
{
    match (a, b) {
        (Some(x), Some(y)) => same_text(x, y),
        (None, None) => true,
        _ => false,
    }
}

fn same_strings(a: &Vec<String>, b: &Vec<String>) -> (r: bool)
    ensures
        r == (texts(a@) == texts(b@)),
{
    if a.len() != b.len() {
        assert(texts(a@).len() != texts(b@).len());
        return false;
    }
    let mut i: usize = 0;
    while i < a.len()
        invariant
            a@.len() == b@.len(),
            i <= a@.len(),
            forall|j: int| 0 <= j < i ==> a@[j]@ == b@[j]@,
        decreases a@.len() - i,
    {
        if !same_text(&a[i], &b[i]) {
            assert(texts(a@)[i as int] != texts(b@)[i as int]);
            return false;
        }
        i = i + 1;
    }
    assert(texts(a@) =~= texts(b@));
    true
}

fn same_dependency(a: &Dependency, b: &Dependency) -> (r: bool)
    ensures
        r == (a@ == b@),
{
    let ann = match (&a.annotation, &b.annotation) {
        (Some(x), Some(y)) => same_text(&x.label, &y.label),
        (None, None) => true,
        _ => false,
    };
    same_text(&a.node_id, &b.node_id) && ann
}

fn same_dependencies(a: &Vec<Dependency>, b: &Vec<Dependency>) -> (r: bool)
    ensures
        r == (deps_view(a@) == deps_view(b@)),
{
    if a.len() != b.len() {
        assert(deps_view(a@).len() != deps_view(b@).len());
        return false;
    }
    let mut i: usize = 0;
    while i < a.len()
        invariant
            a@.len() == b@.len(),
            i <= a@.len(),
            forall|j: int| 0 <= j < i ==> a@[j]@ == b@[j]@,
        decreases a@.len() - i,
    {
        if !same_dependency(&a[i], &b[i]) {
            assert(deps_view(a@)[i as int] != deps_view(b@)[i as int]);
            return false;
        }
        i = i + 1;
    }
    assert(deps_view(a@) =~= deps_view(b@));
    true
}

fn same_sources(a: &Vec<StaleSource>, b: &Vec<StaleSource>) -> (r: bool)
    ensures
        r == (sources_view(a@) == sources_view(b@)),
{
    if a.len() != b.len() {
        assert(sources_view(a@).len() != sources_view(b@).len());
        return false;
    }
    let mut i: usize = 0;
    while i < a.len()
        invariant
            a@.len() == b@.len(),
            i <= a@.len(),
            forall|j: int| 0 <= j < i ==> a@[j]@ == b@[j]@,
        decreases a@.len() - i,
    {
        if !(same_text(&a[i].node_id, &b[i].node_id) && same_text(
            &a[i].changed_at,
            &b[i].changed_at,
        )) {
            assert(sources_view(a@)[i as int] != sources_view(b@)[i as int]);
            return false;
        }
        i = i + 1;
    }
    assert(sources_view(a@) =~= sources_view(b@));
    true
}

fn same_node_type(a: NodeType, b: NodeType) -> (r: bool)
    ensures
        r == (a == b),
{
    match (a, b) {
        (NodeType::Axiom, NodeType::Axiom) => true,
        (NodeType::Deduction, NodeType::Deduction) => true,
        _ => false,
    }
}

fn same_status(a: Status, b: Status) -> (r: bool)
    ensures
        r == (a == b),
{
    match (a, b) {
        (Status::Current, Status::Current) => true,
        (Status::Stale, Status::Stale) => true,
        _ => false,
    }
}

impl Node {
    /// Whether two nodes hold the same frontmatter and content.
    pub fn same_as(&self, other: &Node) -> (r: bool)
        ensures
            r == (self@ == other@),
    {
        let a = &self.frontmatter;
        let b = &other.frontmatter;
        same_text(&a.id, &b.id) && same_text(&a.title, &b.title) && same_node_type(
            a.node_type,
            b.node_type,
        ) && same_strings(&a.tags, &b.tags) && same_status(a.status, b.status) && same_text(
            &a.status_updated_at,
            &b.status_updated_at,
        ) && same_text(&a.status_updated_by, &b.status_updated_by) && same_sources(
            &a.stale_sources,
            &b.stale_sources,
        ) && same_text(&a.created_at, &b.created_at) && same_text(&a.created_by, &b.created_by)
            && same_dependencies(&a.dependencies, &b.dependencies) && same_opt_string(
            &a.relation,
            &b.relation,
        ) && same_text(&self.content, &other.content)
    }
}

} // verus!
