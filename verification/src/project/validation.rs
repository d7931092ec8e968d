//! Project-wide validation.
//!
//! Create, update and delete operations keep the graph consistent as they
//! go, but node files can change on disk behind the application's back, so
//! a pass over the whole project reports every problem it finds: duplicate
//! IDs, type-constraint violations, dangling references, relation errors,
//! cycles, and undefined tags or annotations.
use vstd::prelude::*;

use super::{
    depends_edge, find_node, has_node, lemma_lists_at, lists, node_ids, KnowledgeBase,
};
use crate::config::{annotation_labels, tag_names, ProjectConfig};
use crate::error::{error_text, ErrorSpec};
use crate::graph::{
    adj_view, is_path, keys, lemma_bounded_by_keys, lemma_reaches_extend, lemma_reaches_first_step, lookup, reaches, step,
};
use crate::model::{dep_ids, type_violation, DependencySpec, NodeId, NodeSpec};
use crate::relation::{parse_relation, parse_relation_spec, ErrorSpec as RelErrorSpec, RelationErrorKind};
use crate::text::{copy_string, join, join_strings, same_text, texts, vec_contains_text};

verus! {

/// Severity of a validation issue.
#[derive(Debug, Clone, Copy, PartialEq, Eq)]
pub enum Severity {
    Error,
    Warning,
}

/// Which validation rule was violated.
#[derive(Debug, Clone, Copy, PartialEq, Eq)]
pub enum ValidationRule {
    NoCycles,
    NoDanglingReferences,
    RelationIntegrity,
    RelationParsability,
    TypeConstraints,
    NoDuplicateIds,
    TagReference,
    AnnotationReference,
}

/// A single validation issue.
#[derive(Debug, Clone, PartialEq)]
pub struct ValidationIssue {
    pub severity: Severity,
    pub rule: ValidationRule,
    /// The node this issue pertains to (`None` for graph-level issues).
    pub node_id: Option<NodeId>,
    /// Human-readable description.
    pub message: String,
    /// Extra context: cycle path, missing IDs, undefined names.
    pub context: Option<Vec<String>>,
}

/// The result of a full validation pass.
#[derive(Debug, Clone)]
pub struct ValidationReport {
    pub issues: Vec<ValidationIssue>,
    pub error_count: usize,
    pub warning_count: usize,
}

/// The mathematical value of an issue.
pub struct IssueSpec {
    pub severity: Severity,
    pub rule: ValidationRule,
    pub node_id: Option<Seq<char>>,
    pub message: Seq<char>,
    pub context: Option<Seq<Seq<char>>>,
}

/// The texts of an optional list of strings.
pub open spec fn opt_texts(o: Option<Vec<String>>) -> Option<Seq<Seq<char>>> {
    match o {
        Some(v) => Some(texts(v@)),
        None => None,
    }
}

impl View for ValidationIssue {
    type V = IssueSpec;

    open spec fn view(&self) -> IssueSpec {
        IssueSpec {
            severity: self.severity,
            rule: self.rule,
            node_id: crate::model::opt_text(self.node_id),
            message: self.message@,
            context: opt_texts(self.context),
        }
    }
}

/// The values of a sequence of issues.
pub open spec fn issues_view(v: Seq<ValidationIssue>) -> Seq<IssueSpec> {
    v.map_values(|i: ValidationIssue| i@)
}

/// `f` applied to each element of `s`, the results concatenated in order.
pub open spec fn concat_map<A>(s: Seq<A>, f: spec_fn(A) -> Seq<IssueSpec>) -> Seq<IssueSpec>
    decreases s.len(),
{
    if s.len() == 0 {
        Seq::empty()
    } else {
        concat_map(s.drop_last(), f) + f(s.last())
    }
}

/// The number of issues of severity `Error`.
pub open spec fn error_total(s: Seq<IssueSpec>) -> nat
    decreases s.len(),
{
    if s.len() == 0 {
        0
    } else {
        error_total(s.drop_last()) + if s.last().severity == Severity::Error {
            1nat
        } else {
            0nat
        }
    }
}

// ── The individual checks ────────────────────────────────

/// The issue for an ID repeated in file `e.1`.
pub open spec fn duplicate_issue(e: (Seq<char>, Seq<char>)) -> Seq<IssueSpec> {
    seq![
        IssueSpec {
            severity: Severity::Error,
            rule: ValidationRule::NoDuplicateIds,
            node_id: Some(e.0),
            message: "duplicate node ID `"@ + e.0 + "` found in `"@ + e.1 + "`"@,
            context: Some(seq![e.1]),
        },
    ]
}

/// The issue for a node that breaks the type constraints, if it does.
pub open spec fn type_issues(n: NodeSpec) -> Seq<IssueSpec> {
    match type_violation(n.frontmatter) {
        Some(m) => seq![
            IssueSpec {
                severity: Severity::Error,
                rule: ValidationRule::TypeConstraints,
                node_id: Some(n.frontmatter.id),
                message: error_text(ErrorSpec::TypeConstraint(m)),
                context: None,
            },
        ],
        None => Seq::empty(),
    }
}

/// The issue for a dependency entry naming a node that does not exist, if it does not.
pub open spec fn dangling_issue(nv: Seq<NodeSpec>, id: Seq<char>, d: DependencySpec) -> Seq<IssueSpec> {
    if has_node(nv, d.node_id) {
        Seq::empty()
    } else {
        seq![
            IssueSpec {
                severity: Severity::Error,
                rule: ValidationRule::NoDanglingReferences,
                node_id: Some(id),
                message: "node `"@ + id + "` depends on `"@ + d.node_id + "` which does not exist"@,
                context: Some(seq![d.node_id]),
            },
        ]
    }
}

/// The dangling-reference issues of a node, in the order of its dependency list.
pub open spec fn dangling_issues(nv: Seq<NodeSpec>, n: NodeSpec) -> Seq<IssueSpec> {
    concat_map(
        n.frontmatter.dependencies,
        |d: DependencySpec| dangling_issue(nv, n.frontmatter.id, d),
    )
}

/// The rule a relation error breaks: operand mismatches are integrity errors, the rest parse errors.
pub open spec fn relation_rule(k: RelationErrorKind) -> ValidationRule {
    match k {
        RelationErrorKind::UnknownOperand => ValidationRule::RelationIntegrity,
        RelationErrorKind::MissingOperand => ValidationRule::RelationIntegrity,
        _ => ValidationRule::RelationParsability,
    }
}

/// The issue for one relation error of node `id`.
pub open spec fn relation_issue(id: Seq<char>, e: RelErrorSpec) -> IssueSpec {
    IssueSpec {
        severity: Severity::Error,
        rule: relation_rule(e.kind),
        node_id: Some(id),
        message: "node `"@ + id + "`: "@ + e.message,
        context: None,
    }
}

/// The relation issues of a node: one per error of its relation, none when it has no relation.
pub open spec fn relation_issues(n: NodeSpec) -> Seq<IssueSpec> {
    match n.frontmatter.relation {
        None => Seq::empty(),
        Some(rel) => match parse_relation_spec(rel, dep_ids(n.frontmatter)) {
            Ok(_) => Seq::empty(),
            Err(errs) => errs.map_values(|e: RelErrorSpec| relation_issue(n.frontmatter.id, e)),
        },
    }
}

/// The warning for a tag the configuration does not define, if it does not.
pub open spec fn tag_issue(c: ProjectConfig, id: Seq<char>, tag: Seq<char>) -> Seq<IssueSpec> {
    if tag_names(c).contains(tag) {
        Seq::empty()
    } else {
        seq![
            IssueSpec {
                severity: Severity::Warning,
                rule: ValidationRule::TagReference,
                node_id: Some(id),
                message: "node `"@ + id + "` uses tag `"@ + tag + "` not defined in config"@,
                context: Some(seq![tag]),
            },
        ]
    }
}

/// The tag warnings of a node, in the order of its tags.
pub open spec fn tag_issues(c: ProjectConfig, n: NodeSpec) -> Seq<IssueSpec> {
    concat_map(n.frontmatter.tags, |t: Seq<char>| tag_issue(c, n.frontmatter.id, t))
}

/// The warning for an edge label the configuration does not define, if it does not.
pub open spec fn annotation_issue(c: ProjectConfig, id: Seq<char>, d: DependencySpec) -> Seq<IssueSpec> {
    match d.annotation {
        Some(label) => if annotation_labels(c).contains(label) {
            Seq::empty()
        } else {
            seq![
                IssueSpec {
                    severity: Severity::Warning,
                    rule: ValidationRule::AnnotationReference,
                    node_id: Some(id),
                    message: "node `"@ + id + "` uses annotation `"@ + label + "` on dependency `"@
                        + d.node_id + "` not defined in config"@,
                    context: Some(seq![label]),
                },
            ]
        },
        None => Seq::empty(),
    }
}

/// The annotation warnings of a node, in the order of its dependency list.
pub open spec fn annotation_issues(c: ProjectConfig, n: NodeSpec) -> Seq<IssueSpec> {
    concat_map(
        n.frontmatter.dependencies,
        |d: DependencySpec| annotation_issue(c, n.frontmatter.id, d),
    )
}

/// Some node lies on a cycle of the dependency graph.
pub open spec fn has_cycle(nv: Seq<NodeSpec>) -> bool {
    exists|x: Seq<char>| has_node(nv, x) && #[trigger] reaches(depends_edge(nv), x, x)
}

/// `p` is a cycle of the dependency graph: a closed walk that passes no
/// node twice except where it closes.
pub open spec fn is_cycle(nv: Seq<NodeSpec>, p: Seq<Seq<char>>) -> bool {
    &&& is_path(depends_edge(nv), p)
    &&& p[0] == p.last()
    &&& p.drop_last().no_duplicates()
}

/// The issue that reports the cycle `p`.
pub open spec fn cycle_issue(p: Seq<Seq<char>>) -> IssueSpec {
    IssueSpec {
        severity: Severity::Error,
        rule: ValidationRule::NoCycles,
        node_id: None,
        message: "dependency graph contains a cycle: "@ + join(p, " -> "@),
        context: Some(p),
    }
}

/// `cyc` is what the cycle check may report: one issue naming a cycle when
/// the graph has one, none otherwise.
pub open spec fn cycle_report_ok(nv: Seq<NodeSpec>, cyc: Seq<IssueSpec>) -> bool {
    if has_cycle(nv) {
        cyc.len() == 1 && exists|p: Seq<Seq<char>>| #[trigger] is_cycle(nv, p) && cyc[0] == cycle_issue(p)
    } else {
        cyc.len() == 0
    }
}

impl ValidationReport {
    /// `true` when there are no errors (warnings are allowed).
    pub fn is_valid(&self) -> (r: bool)
        ensures
            r == (self.error_count == 0),
    {
        self.error_count == 0
    }
}

// ── Issue builders ───────────────────────────────────────

fn one(issues: &mut Vec<ValidationIssue>, i: ValidationIssue)
    ensures
        issues_view(final(issues)@) == issues_view(old(issues)@) + seq![i@],
{
    let ghost before = issues@;
    issues.push(i);
    assert(issues_view(issues@) =~= issues_view(before) + seq![issues@.last()@]);
}

fn single(s: &String) -> (r: Vec<String>)
    ensures
        texts(r@) == seq![s@],
{
    let mut r: Vec<String> = Vec::new();
    r.push(copy_string(s));
    assert(texts(r@) =~= seq![s@]);
    r
}

proof fn lemma_concat_step<A>(s: Seq<A>, f: spec_fn(A) -> Seq<IssueSpec>, i: int)
    requires
        0 <= i < s.len(),
    ensures
        concat_map(s.take(i + 1), f) == concat_map(s.take(i), f) + f(s[i]),
{
    assert(s.take(i + 1).drop_last() =~= s.take(i));
    assert(s.take(i + 1).last() == s[i]);
}

impl KnowledgeBase {
    fn push_duplicate_issues(&self, issues: &mut Vec<ValidationIssue>)
        ensures
            issues_view(final(issues)@) == issues_view(old(issues)@) + concat_map(
                self.duplicates_view(),
                |e: (Seq<char>, Seq<char>)| duplicate_issue(e),
            ),
    {
        let ghost dv = self.duplicates_view();
        let ghost f = |e: (Seq<char>, Seq<char>)| duplicate_issue(e);
        let ghost base = issues_view(issues@);
        let mut k: usize = 0;
        while k < self.duplicate_ids.len()
            invariant
                dv == self.duplicates_view(),
                dv.len() == self.duplicate_ids@.len(),
                f == (|e: (Seq<char>, Seq<char>)| duplicate_issue(e)),
                k <= dv.len(),
                issues_view(issues@) == base + concat_map(dv.take(k as int), f),
            decreases dv.len() - k,
        {
            proof {
                lemma_concat_step(dv, f, k as int);
            }
            let id = &self.duplicate_ids[k].0;
            let path = &self.duplicate_ids[k].1;
            assert(dv[k as int] == (id@, path@));
            let mut m = String::from_str("duplicate node ID `");
            m.append(id.as_str());
            m.append("` found in `");
            m.append(path.as_str());
            m.append("`");
            one(
                issues,
                ValidationIssue {
                    severity: Severity::Error,
                    rule: ValidationRule::NoDuplicateIds,
                    node_id: Some(copy_string(id)),
                    message: m,
                    context: Some(single(path)),
                },
            );
            assert(issues_view(issues@) =~= base + concat_map(dv.take(k + 1), f));
            k = k + 1;
        }
        assert(dv.take(k as int) =~= dv);
    }

    fn push_type_issues(&self, issues: &mut Vec<ValidationIssue>)
        ensures
            issues_view(final(issues)@) == issues_view(old(issues)@) + concat_map(
                self.nodes_view(),
                |n: NodeSpec| type_issues(n),
            ),
    {
        let ghost nv = self.nodes_view();
        let ghost f = |n: NodeSpec| type_issues(n);
        let ghost base = issues_view(issues@);
        let mut k: usize = 0;
        while k < self.nodes.len()
            invariant
                nv == self.nodes_view(),
                f == (|n: NodeSpec| type_issues(n)),
                k <= nv.len(),
                issues_view(issues@) == base + concat_map(nv.take(k as int), f),
            decreases nv.len() - k,
        {
            proof {
                lemma_concat_step(nv, f, k as int);
            }
            assert(nv[k as int] == self.nodes@[k as int]@);
            let fm = &self.nodes[k].frontmatter;
            match fm.validate_type_constraints() {
                Ok(()) => {
                    assert(issues_view(issues@) =~= base + concat_map(nv.take(k + 1), f));
                },
                Err(e) => {
                    one(
                        issues,
                        ValidationIssue {
                            severity: Severity::Error,
                            rule: ValidationRule::TypeConstraints,
                            node_id: Some(copy_string(&fm.id)),
                            message: e.to_string(),
                            context: None,
                        },
                    );
                    assert(issues_view(issues@) =~= base + concat_map(nv.take(k + 1), f));
                },
            }
            k = k + 1;
        }
        assert(nv.take(k as int) =~= nv);
    }

    fn push_dangling_issues(&self, issues: &mut Vec<ValidationIssue>)
        ensures
            issues_view(final(issues)@) == issues_view(old(issues)@) + concat_map(
                self.nodes_view(),
                |n: NodeSpec| dangling_issues(self.nodes_view(), n),
            ),
    {
        proof {
            use_type_invariant(&*self);
        }
        let ghost nv = self.nodes_view();
        let ghost f = |n: NodeSpec| dangling_issues(nv, n);
        let ghost base = issues_view(issues@);
        let mut k: usize = 0;
        while k < self.nodes.len()
            invariant
                nv == self.nodes_view(),
                f == (|n: NodeSpec| dangling_issues(nv, n)),
                k <= nv.len(),
                issues_view(issues@) == base + concat_map(nv.take(k as int), f),
            decreases nv.len() - k,
        {
            proof {
                lemma_concat_step(nv, f, k as int);
            }
            assert(nv[k as int] == self.nodes@[k as int]@);
            let fm = &self.nodes[k].frontmatter;
            let ghost dv = nv[k as int].frontmatter.dependencies;
            let ghost id = nv[k as int].frontmatter.id;
            let ghost g = |d: DependencySpec| dangling_issue(nv, id, d);
            let ghost mid = issues_view(issues@);
            let mut j: usize = 0;
            while j < fm.dependencies.len()
                invariant
                    nv == self.nodes_view(),
                    k < nv.len(),
                    *fm == self.nodes@[k as int].frontmatter,
                    dv == nv[k as int].frontmatter.dependencies,
                    id == nv[k as int].frontmatter.id,
                    dv.len() == fm.dependencies@.len(),
                    g == (|d: DependencySpec| dangling_issue(nv, id, d)),
                    j <= dv.len(),
                    issues_view(issues@) == mid + concat_map(dv.take(j as int), g),
                decreases dv.len() - j,
            {
                proof {
                    lemma_concat_step(dv, g, j as int);
                }
                let d = &fm.dependencies[j];
                assert(dv[j as int] == d@);
                let found = find_node(&self.nodes, &d.node_id);
                if found.is_none() {
                    let mut m = String::from_str("node `");
                    m.append(fm.id.as_str());
                    m.append("` depends on `");
                    m.append(d.node_id.as_str());
                    m.append("` which does not exist");
                    one(
                        issues,
                        ValidationIssue {
                            severity: Severity::Error,
                            rule: ValidationRule::NoDanglingReferences,
                            node_id: Some(copy_string(&fm.id)),
                            message: m,
                            context: Some(single(&d.node_id)),
                        },
                    );
                } else {
                    assert(node_ids(nv)[found.unwrap() as int] == d.node_id@);
                }
                assert(issues_view(issues@) =~= mid + concat_map(dv.take(j + 1), g));
                j = j + 1;
            }
            assert(dv.take(j as int) =~= dv);
            assert(issues_view(issues@) =~= base + concat_map(nv.take(k + 1), f));
            k = k + 1;
        }
        assert(nv.take(k as int) =~= nv);
    }

    fn push_relation_issues(&self, issues: &mut Vec<ValidationIssue>)
        ensures
            issues_view(final(issues)@) == issues_view(old(issues)@) + concat_map(
                self.nodes_view(),
                |n: NodeSpec| relation_issues(n),
            ),
    {
        let ghost nv = self.nodes_view();
        let ghost f = |n: NodeSpec| relation_issues(n);
        let ghost base = issues_view(issues@);
        let mut k: usize = 0;
        while k < self.nodes.len()
            invariant
                nv == self.nodes_view(),
                f == (|n: NodeSpec| relation_issues(n)),
                k <= nv.len(),
                issues_view(issues@) == base + concat_map(nv.take(k as int), f),
            decreases nv.len() - k,
        {
            proof {
                lemma_concat_step(nv, f, k as int);
            }
            assert(nv[k as int] == self.nodes@[k as int]@);
            let fm = &self.nodes[k].frontmatter;
            match &fm.relation {
                None => {
                    assert(issues_view(issues@) =~= base + concat_map(nv.take(k + 1), f));
                },
                Some(rel) => {
                    let mut dep_list: Vec<String> = Vec::new();
                    let mut j: usize = 0;
                    while j < fm.dependencies.len()
                        invariant
                            j <= fm.dependencies@.len(),
                            dep_list@.len() == j,
                            forall|m: int| 0 <= m < j ==> #[trigger] dep_list@[m]@ == fm.dependencies@[m].node_id@,
                        decreases fm.dependencies@.len() - j,
                    {
                        dep_list.push(copy_string(&fm.dependencies[j].node_id));
                        j = j + 1;
                    }
                    assert(texts(dep_list@) =~= dep_ids(nv[k as int].frontmatter));
                    match parse_relation(rel.as_str(), dep_list.as_slice()) {
                        Ok(_) => {
                            assert(issues_view(issues@) =~= base + concat_map(nv.take(k + 1), f));
                        },
                        Err(errs) => {
                            let ghost id = nv[k as int].frontmatter.id;
                            let ghost ev = crate::relation::errors_view(errs@);
                            let ghost mid = issues_view(issues@);
                            let mut m: usize = 0;
                            while m < errs.len()
                                invariant
                                    m <= errs@.len(),
                                    ev == crate::relation::errors_view(errs@),
                                    id == fm.id@,
                                    issues_view(issues@) == mid + ev.take(m as int).map_values(
                                        |e: RelErrorSpec| relation_issue(id, e),
                                    ),
                                decreases errs@.len() - m,
                            {
                                let e = &errs[m];
                                let rule = match e.kind {
                                    RelationErrorKind::UnknownOperand => ValidationRule::RelationIntegrity,
                                    RelationErrorKind::MissingOperand => ValidationRule::RelationIntegrity,
                                    _ => ValidationRule::RelationParsability,
                                };
                                let mut msg = String::from_str("node `");
                                msg.append(fm.id.as_str());
                                msg.append("`: ");
                                msg.append(e.message.as_str());
                                one(
                                    issues,
                                    ValidationIssue {
                                        severity: Severity::Error,
                                        rule,
                                        node_id: Some(copy_string(&fm.id)),
                                        message: msg,
                                        context: None,
                                    },
                                );
                                assert(ev[m as int] == e@);
                                assert(ev.take(m + 1).map_values(|e: RelErrorSpec| relation_issue(id, e))
                                    =~= ev.take(m as int).map_values(|e: RelErrorSpec| relation_issue(id, e))
                                    + seq![relation_issue(id, ev[m as int])]);
                                m = m + 1;
                            }
                            assert(ev.take(m as int) =~= ev);
                            assert(issues_view(issues@) =~= base + concat_map(nv.take(k + 1), f));
                        },
                    }
                },
            }
            k = k + 1;
        }
        assert(nv.take(k as int) =~= nv);
    }

    fn push_tag_issues(&self, issues: &mut Vec<ValidationIssue>)
        ensures
            issues_view(final(issues)@) == issues_view(old(issues)@) + concat_map(
                self.nodes_view(),
                |n: NodeSpec| tag_issues(self.config_view(), n),
            ),
    {
        let ghost nv = self.nodes_view();
        let ghost c = self.config_view();
        let ghost f = |n: NodeSpec| tag_issues(c, n);
        let ghost base = issues_view(issues@);
        let mut defined: Vec<String> = Vec::new();
        let mut t: usize = 0;
        while t < self.config.tag_definitions.len()
            invariant
                c == self.config,
                t <= c.tag_definitions@.len(),
                defined@.len() == t,
                forall|m: int| 0 <= m < t ==> #[trigger] defined@[m]@ == c.tag_definitions@[m].name@,
            decreases c.tag_definitions@.len() - t,
        {
            defined.push(copy_string(&self.config.tag_definitions[t].name));
            t = t + 1;
        }
        assert(texts(defined@) =~= tag_names(c));
        let mut k: usize = 0;
        while k < self.nodes.len()
            invariant
                nv == self.nodes_view(),
                c == self.config_view(),
                texts(defined@) == tag_names(c),
                f == (|n: NodeSpec| tag_issues(c, n)),
                k <= nv.len(),
                issues_view(issues@) == base + concat_map(nv.take(k as int), f),
            decreases nv.len() - k,
        {
            proof {
                lemma_concat_step(nv, f, k as int);
            }
            assert(nv[k as int] == self.nodes@[k as int]@);
            let fm = &self.nodes[k].frontmatter;
            let ghost tv = nv[k as int].frontmatter.tags;
            let ghost id = nv[k as int].frontmatter.id;
            let ghost g = |tag: Seq<char>| tag_issue(c, id, tag);
            let ghost mid = issues_view(issues@);
            let mut j: usize = 0;
            while j < fm.tags.len()
                invariant
                    k < nv.len(),
                    *fm == self.nodes@[k as int].frontmatter,
                    nv == self.nodes_view(),
                    tv == nv[k as int].frontmatter.tags,
                    id == nv[k as int].frontmatter.id,
                    tv == texts(fm.tags@),
                    texts(defined@) == tag_names(c),
                    g == (|tag: Seq<char>| tag_issue(c, id, tag)),
                    j <= tv.len(),
                    issues_view(issues@) == mid + concat_map(tv.take(j as int), g),
                decreases tv.len() - j,
            {
                proof {
                    lemma_concat_step(tv, g, j as int);
                }
                let tag = &fm.tags[j];
                assert(tv[j as int] == tag@);
                if !vec_contains_text(&defined, tag) {
                    let mut m = String::from_str("node `");
                    m.append(fm.id.as_str());
                    m.append("` uses tag `");
                    m.append(tag.as_str());
                    m.append("` not defined in config");
                    one(
                        issues,
                        ValidationIssue {
                            severity: Severity::Warning,
                            rule: ValidationRule::TagReference,
                            node_id: Some(copy_string(&fm.id)),
                            message: m,
                            context: Some(single(tag)),
                        },
                    );
                }
                assert(issues_view(issues@) =~= mid + concat_map(tv.take(j + 1), g));
                j = j + 1;
            }
            assert(tv.take(j as int) =~= tv);
            assert(issues_view(issues@) =~= base + concat_map(nv.take(k + 1), f));
            k = k + 1;
        }
        assert(nv.take(k as int) =~= nv);
    }

    fn push_annotation_issues(&self, issues: &mut Vec<ValidationIssue>)
        ensures
            issues_view(final(issues)@) == issues_view(old(issues)@) + concat_map(
                self.nodes_view(),
                |n: NodeSpec| annotation_issues(self.config_view(), n),
            ),
    {
        let ghost nv = self.nodes_view();
        let ghost c = self.config_view();
        let ghost f = |n: NodeSpec| annotation_issues(c, n);
        let ghost base = issues_view(issues@);
        let mut defined: Vec<String> = Vec::new();
        let mut t: usize = 0;
        while t < self.config.edge_annotations.len()
            invariant
                c == self.config,
                t <= c.edge_annotations@.len(),
                defined@.len() == t,
                forall|m: int| 0 <= m < t ==> #[trigger] defined@[m]@ == c.edge_annotations@[m].label@,
            decreases c.edge_annotations@.len() - t,
        {
            defined.push(copy_string(&self.config.edge_annotations[t].label));
            t = t + 1;
        }
        assert(texts(defined@) =~= annotation_labels(c));
        let mut k: usize = 0;
        while k < self.nodes.len()
            invariant
                nv == self.nodes_view(),
                c == self.config_view(),
                texts(defined@) == annotation_labels(c),
                f == (|n: NodeSpec| annotation_issues(c, n)),
                k <= nv.len(),
                issues_view(issues@) == base + concat_map(nv.take(k as int), f),
            decreases nv.len() - k,
        {
            proof {
                lemma_concat_step(nv, f, k as int);
            }
            assert(nv[k as int] == self.nodes@[k as int]@);
            let fm = &self.nodes[k].frontmatter;
            let ghost dv = nv[k as int].frontmatter.dependencies;
            let ghost id = nv[k as int].frontmatter.id;
            let ghost g = |d: DependencySpec| annotation_issue(c, id, d);
            let ghost mid = issues_view(issues@);
            let mut j: usize = 0;
            while j < fm.dependencies.len()
                invariant
                    k < nv.len(),
                    *fm == self.nodes@[k as int].frontmatter,
                    nv == self.nodes_view(),
                    dv == nv[k as int].frontmatter.dependencies,
                    id == nv[k as int].frontmatter.id,
                    dv.len() == fm.dependencies@.len(),
                    texts(defined@) == annotation_labels(c),
                    g == (|d: DependencySpec| annotation_issue(c, id, d)),
                    j <= dv.len(),
                    issues_view(issues@) == mid + concat_map(dv.take(j as int), g),
                decreases dv.len() - j,
            {
                proof {
                    lemma_concat_step(dv, g, j as int);
                }
                let d = &fm.dependencies[j];
                assert(dv[j as int] == d@);
                match &d.annotation {
                    Some(a) => {
                        if !vec_contains_text(&defined, &a.label) {
                            let mut m = String::from_str("node `");
                            m.append(fm.id.as_str());
                            m.append("` uses annotation `");
                            m.append(a.label.as_str());
                            m.append("` on dependency `");
                            m.append(d.node_id.as_str());
                            m.append("` not defined in config");
                            one(
                                issues,
                                ValidationIssue {
                                    severity: Severity::Warning,
                                    rule: ValidationRule::AnnotationReference,
                                    node_id: Some(copy_string(&fm.id)),
                                    message: m,
                                    context: Some(single(&a.label)),
                                },
                            );
                        }
                    },
                    None => {},
                }
                assert(issues_view(issues@) =~= mid + concat_map(dv.take(j + 1), g));
                j = j + 1;
            }
            assert(dv.take(j as int) =~= dv);
            assert(issues_view(issues@) =~= base + concat_map(nv.take(k + 1), f));
            k = k + 1;
        }
        assert(nv.take(k as int) =~= nv);
    }
}


// ── Cycles ───────────────────────────────────────────────

/// A dependency that the cycle walk may step to: the node it started from,
/// or a node that lies on a cycle.
pub open spec fn on_cycle(nv: Seq<NodeSpec>, start: Seq<char>, d: Seq<char>) -> bool {
    d == start || (has_node(nv, d) && reaches(depends_edge(nv), d, d))
}

/// The position of `x` in `v`, if it occurs.
fn position_of(v: &Vec<String>, x: &String) -> (r: Option<usize>)
    ensures
        r matches Some(i) ==> i < v@.len() && v@[i as int]@ == x@,
        r is None ==> !texts(v@).contains(x@),
{
    let mut i: usize = 0;
    while i < v.len()
        invariant
            i <= v@.len(),
            forall|j: int| 0 <= j < i ==> v@[j]@ != x@,
        decreases v@.len() - i,
    {
        if same_text(&v[i], x) {
            return Some(i);
        }
        i = i + 1;
    }
    proof {
        if texts(v@).contains(x@) {
            let j = choose|j: int| 0 <= j < texts(v@).len() && texts(v@)[j] == x@;
            assert(v@[j]@ == x@);
        }
    }
    None
}

impl KnowledgeBase {
    /// The position among the nodes of the first dependency of node `cur`
    /// that is `start` or lies on a cycle.
    fn next_on_cycle(&self, cur: usize, start: &String) -> (r: Option<usize>)
        requires
            cur < self.nodes_view().len(),
            has_node(self.nodes_view(), start@),
        ensures
            r matches Some(k) ==> k < self.nodes_view().len() && depends_edge(self.nodes_view())(
                self.nodes_view()[cur as int].frontmatter.id,
                self.nodes_view()[k as int].frontmatter.id,
            ) && on_cycle(self.nodes_view(), start@, self.nodes_view()[k as int].frontmatter.id),
            r is None ==> forall|d: Seq<char>|
                dep_ids(self.nodes_view()[cur as int].frontmatter).contains(d) ==> !on_cycle(
                    self.nodes_view(),
                    start@,
                    d,
                ),
    {
        proof {
            use_type_invariant(&*self);
        }
        let ghost nv = self.nodes_view();
        let ghost t = adj_view(self.dependencies@);
        let ghost dv = dep_ids(nv[cur as int].frontmatter);
        let ghost cid = nv[cur as int].frontmatter.id;
        let deps = &self.nodes[cur].frontmatter.dependencies;
        assert(nv[cur as int] == self.nodes@[cur as int]@);
        let mut j: usize = 0;
        while j < deps.len()
            invariant
                self.wf(),
                nv == self.nodes_view(),
                t == adj_view(self.dependencies@),
                cur < nv.len(),
                cid == nv[cur as int].frontmatter.id,
                has_node(nv, start@),
                deps@ == self.nodes@[cur as int].frontmatter.dependencies@,
                dv == dep_ids(nv[cur as int].frontmatter),
                dv.len() == deps@.len(),
                j <= deps@.len(),
                forall|m: int| 0 <= m < j ==> !on_cycle(nv, start@, #[trigger] dv[m]),
            decreases deps@.len() - j,
        {
            let d = &deps[j].node_id;
            assert(dv[j as int] == d@);
            let q = if same_text(d, start) {
                true
            } else {
                match lookup(&self.dependencies, d) {
                    Some(k) => {
                        assert(t[k as int].1 == texts(self.dependencies@[k as int].1@));
                        assert(keys(t)[k as int] == d@);
                        vec_contains_text(&self.dependencies[k].1, d)
                    },
                    None => {
                        proof {
                            if has_node(nv, d@) {
                                let i = choose|i: int| 0 <= i < node_ids(nv).len() && node_ids(nv)[i] == d@;
                                assert(keys(t)[i] == d@);
                                assert(self.dependencies@[i].0@ == d@);
                            }
                        }
                        false
                    },
                }
            };
            assert(q == on_cycle(nv, start@, d@));
            if q {
                match find_node(&self.nodes, d) {
                    Some(k) => {
                        assert(nv[k as int].frontmatter.id == d@);
                        assert(node_ids(nv)[k as int] == d@);
                        assert(dv.contains(d@));
                        assert(lists(nv, cid, d@));
                        return Some(k);
                    },
                    None => {},
                }
            }
            j = j + 1;
        }
        proof {
            assert forall|d: Seq<char>| dv.contains(d) implies !on_cycle(nv, start@, d) by {
                let m = choose|m: int| 0 <= m < dv.len() && dv[m] == d;
                assert(!on_cycle(nv, start@, dv[m]));
            }
        }
        None
    }

    /// A closed walk through `start`'s cycle: the walk follows, from each
    /// node, its first dependency that is `start` or lies on a cycle, until
    /// it comes back to a node it has passed; the part from that node on is
    /// returned, closed by the node again.
    fn extract_cycle_path(&self, start: &String, si: usize) -> (p: Vec<String>)
        requires
            si < self.nodes_view().len(),
            self.nodes_view()[si as int].frontmatter.id == start@,
            reaches(depends_edge(self.nodes_view()), start@, start@),
        ensures
            is_cycle(self.nodes_view(), texts(p@)),
    {
        proof {
            use_type_invariant(&*self);
        }
        let ghost nv = self.nodes_view();
        let ghost e = depends_edge(nv);
        assert(node_ids(nv)[si as int] == start@);
        let mut path: Vec<String> = Vec::new();
        path.push(copy_string(start));
        assert(texts(path@) =~= seq![start@]);
        proof {
            lemma_bounded_by_keys(texts(path@), node_ids(nv));
        }
        let mut cur: usize = si;
        loop
            invariant
                self.wf(),
                nv == self.nodes_view(),
                e == depends_edge(nv),
                has_node(nv, start@),
                reaches(e, start@, start@),
                cur < nv.len(),
                path@.len() >= 1,
                path@.len() <= nv.len(),
                texts(path@)[0] == start@,
                texts(path@).last() == nv[cur as int].frontmatter.id,
                texts(path@).no_duplicates(),
                forall|x: Seq<char>| texts(path@).contains(x) ==> node_ids(nv).contains(x),
                forall|i: int| 0 <= i < path@.len() - 1 ==> #[trigger] step(e, texts(path@), i),
                reaches(e, nv[cur as int].frontmatter.id, nv[cur as int].frontmatter.id),
            decreases nv.len() - path@.len(),
        {
            let ghost pv = texts(path@);
            let ghost cid = nv[cur as int].frontmatter.id;
            match self.next_on_cycle(cur, start) {
                None => {
                    proof {
                        lemma_reaches_first_step(e, cid, cid);
                        let d = choose|d: Seq<char>| #[trigger] e(cid, d) && (d == cid || reaches(e, d, cid));
                        lemma_lists_at(nv, cur as int, cid, d);
                        if d != cid {
                            lemma_reaches_extend(e, d, cid, d);
                        }
                        assert(on_cycle(nv, start@, d));
                    }
                    return path;
                },
                Some(k) => {
                    let nid = &self.nodes[k].frontmatter.id;
                    assert(nv[k as int].frontmatter.id == nid@);
                    match position_of(&path, nid) {
                        Some(pos) => {
                            let mut cycle: Vec<String> = Vec::new();
                            let mut m: usize = pos;
                            while m < path.len()
                                invariant
                                    pos <= m <= path@.len(),
                                    pv == texts(path@),
                                    texts(cycle@) == pv.subrange(pos as int, m as int),
                                decreases path@.len() - m,
                            {
                                let ghost c0 = texts(cycle@);
                                cycle.push(copy_string(&path[m]));
                                assert(texts(cycle@) =~= c0.push(pv[m as int]));
                                assert(pv.subrange(pos as int, m + 1) =~= pv.subrange(pos as int, m as int).push(pv[m as int]));
                                m = m + 1;
                            }
                            let ghost c1 = texts(cycle@);
                            cycle.push(copy_string(nid));
                            let ghost c = texts(cycle@);
                            assert(c =~= c1.push(nid@));
                            assert(pv[pos as int] == nid@);
                            assert forall|i: int| 0 <= i < c.len() - 1 implies #[trigger] step(e, c, i) by {
                                if i < c.len() - 2 {
                                    assert(step(e, pv, pos + i));
                                    assert(c[i] == pv[pos + i]);
                                    assert(c[i + 1] == pv[pos + i + 1]);
                                } else {
                                    assert(c[i] == pv.last());
                                    assert(c[i + 1] == nid@);
                                }
                            }
                            assert(is_path(e, c));
                            assert(c[0] == c.last());
                            assert(c.drop_last() =~= pv.subrange(pos as int, pv.len() as int));
                            assert forall|a: int, b: int| 0 <= a < b < c.drop_last().len() implies c.drop_last()[a]
                                != c.drop_last()[b] by {
                                assert(c.drop_last()[a] == pv[pos + a]);
                                assert(c.drop_last()[b] == pv[pos + b]);
                            }
                            return cycle;
                        },
                        None => {
                            path.push(copy_string(nid));
                            assert(texts(path@) =~= pv.push(nid@));
                            proof {
                                assert forall|x: Seq<char>| texts(path@).contains(x) implies node_ids(nv).contains(x) by {
                                    crate::text::lemma_push_contains(pv, nid@, x);
                                    assert(node_ids(nv)[k as int] == nid@);
                                }
                                assert forall|i: int| 0 <= i < path@.len() - 1 implies #[trigger] step(e, texts(path@), i) by {
                                    if i < pv.len() - 1 {
                                        assert(step(e, pv, i));
                                    }
                                }
                                lemma_bounded_by_keys(texts(path@), node_ids(nv));
                            }
                            cur = k;
                        },
                    }
                },
            }
        }
    }

    fn push_cycle_issue(&self, issues: &mut Vec<ValidationIssue>)
        ensures
            exists|cyc: Seq<IssueSpec>| #[trigger]
                cycle_report_ok(self.nodes_view(), cyc) && issues_view(final(issues)@)
                    == issues_view(old(issues)@) + cyc,
    {
        proof {
            use_type_invariant(&*self);
        }
        let ghost nv = self.nodes_view();
        let ghost e = depends_edge(nv);
        let ghost t = adj_view(self.dependencies@);
        let ghost base = issues_view(issues@);
        let mut i: usize = 0;
        while i < self.dependencies.len()
            invariant
                self.wf(),
                nv == self.nodes_view(),
                e == depends_edge(nv),
                t == adj_view(self.dependencies@),
                base == issues_view(issues@),
                base == issues_view(old(issues)@),
                i <= t.len(),
                forall|j: int| 0 <= j < i ==> !reaches(e, #[trigger] t[j].0, t[j].0),
            decreases t.len() - i,
        {
            assert(t[i as int].1 == texts(self.dependencies@[i as int].1@));
            if vec_contains_text(&self.dependencies[i].1, &self.dependencies[i].0) {
                let start = copy_string(&self.dependencies[i].0);
                assert(keys(t)[i as int] == start@);
                assert(node_ids(nv)[i as int] == start@);
                assert(keys(t).len() == node_ids(nv).len());
                let p = self.extract_cycle_path(&start, i);
                let mut m = String::from_str("dependency graph contains a cycle: ");
                let joined = join_strings(&p, " -> ");
                m.append(joined.as_str());
                let ghost pv = texts(p@);
                let ctx = crate::text::copy_strings(&p);
                one(
                    issues,
                    ValidationIssue {
                        severity: Severity::Error,
                        rule: ValidationRule::NoCycles,
                        node_id: None,
                        message: m,
                        context: Some(ctx),
                    },
                );
                proof {
                    assert(has_node(nv, start@));
                    assert(has_cycle(nv));
                    let cyc = seq![cycle_issue(pv)];
                    assert(is_cycle(nv, pv));
                    assert(issues_view(issues@) == base + cyc);
                    assert(cycle_report_ok(nv, cyc));
                }
                return;
            }
            i = i + 1;
        }
        proof {
            assert forall|x: Seq<char>| has_node(nv, x) implies !#[trigger] reaches(e, x, x) by {
                let j = choose|j: int| 0 <= j < node_ids(nv).len() && node_ids(nv)[j] == x;
                assert(keys(t)[j] == x);
                assert(!reaches(e, t[j].0, t[j].0));
            }
            assert(!has_cycle(nv));
            let cyc = Seq::<IssueSpec>::empty();
            assert(issues_view(issues@) =~= base + cyc);
            assert(cycle_report_ok(nv, cyc));
        }
    }
}


/// Every issue a validation pass reports, in order: duplicate IDs, type
/// constraints, dangling references, relation errors, the cycle check's
/// issues `cyc`, undefined tags, undefined annotations. Within each check
/// the nodes are taken in stored order, and each node's dependencies or
/// tags in their listed order.
pub open spec fn report_issues(
    nv: Seq<NodeSpec>,
    c: ProjectConfig,
    dups: Seq<(Seq<char>, Seq<char>)>,
    cyc: Seq<IssueSpec>,
) -> Seq<IssueSpec> {
    concat_map(dups, |e: (Seq<char>, Seq<char>)| duplicate_issue(e)) + concat_map(
        nv,
        |n: NodeSpec| type_issues(n),
    ) + concat_map(nv, |n: NodeSpec| dangling_issues(nv, n)) + concat_map(
        nv,
        |n: NodeSpec| relation_issues(n),
    ) + cyc + concat_map(nv, |n: NodeSpec| tag_issues(c, n)) + concat_map(
        nv,
        |n: NodeSpec| annotation_issues(c, n),
    )
}

impl KnowledgeBase {
    /// Runs every check and reports every issue found; it never stops at
    /// the first one.
    pub fn validate(&self) -> (r: ValidationReport)
        ensures
            exists|cyc: Seq<IssueSpec>| #[trigger]
                cycle_report_ok(self.nodes_view(), cyc) && issues_view(r.issues@) == report_issues(
                    self.nodes_view(),
                    self.config_view(),
                    self.duplicates_view(),
                    cyc,
                ),
            r.error_count == error_total(issues_view(r.issues@)),
            r.warning_count == r.issues@.len() - r.error_count,
    {
        proof {
            use_type_invariant(&*self);
        }
        let mut issues: Vec<ValidationIssue> = Vec::new();
        assert(issues_view(issues@) =~= Seq::<IssueSpec>::empty());
        self.push_duplicate_issues(&mut issues);
        self.push_type_issues(&mut issues);
        self.push_dangling_issues(&mut issues);
        self.push_relation_issues(&mut issues);
        let ghost before_cycles = issues_view(issues@);
        self.push_cycle_issue(&mut issues);
        let ghost cyc = issues_view(issues@).subrange(
            before_cycles.len() as int,
            issues_view(issues@).len() as int,
        );
        let ghost after_cycles = issues_view(issues@);
        self.push_tag_issues(&mut issues);
        self.push_annotation_issues(&mut issues);
        proof {
            let c0 = choose|c0: Seq<IssueSpec>| #[trigger]
                cycle_report_ok(self.nodes_view(), c0) && after_cycles == before_cycles + c0;
            assert(c0 =~= cyc);
            assert(issues_view(issues@) =~= report_issues(
                self.nodes_view(),
                self.config_view(),
                self.duplicates_view(),
                cyc,
            ));
        }
        let ghost iv = issues_view(issues@);
        let mut errors: usize = 0;
        let mut i: usize = 0;
        while i < issues.len()
            invariant
                iv == issues_view(issues@),
                i <= issues@.len(),
                errors <= i,
                errors == error_total(iv.take(i as int)),
            decreases issues@.len() - i,
        {
            assert(iv.take(i + 1).drop_last() =~= iv.take(i as int));
            assert(iv[i as int] == issues@[i as int]@);
            match issues[i].severity {
                Severity::Error => {
                    errors = errors + 1;
                },
                Severity::Warning => {},
            }
            i = i + 1;
        }
        assert(iv.take(i as int) =~= iv);
        let warnings = issues.len() - errors;
        ValidationReport { issues, error_count: errors, warning_count: warnings }
    }
}

} // verus!
