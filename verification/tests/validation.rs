use ex_grapha_core::{
    config::ProjectConfig,
    error::Error,
    model::{Dependency, EdgeAnnotation, Node, NodeFrontmatter, NodeType, Status},
    node::NodeParams,
    project::KnowledgeBase,
    validation::{Severity, ValidationRule},
};

fn empty_kb() -> KnowledgeBase {
    KnowledgeBase::new("/projects/kb".to_string(), ProjectConfig::default())
}

fn axiom_params(title: &str) -> NodeParams {
    NodeParams {
        title: title.into(),
        node_type: NodeType::Axiom,
        tags: vec![],
        dependencies: vec![],
        relation: None,
        content: format!("# {title}\n"),
    }
}

fn deduction(title: &str, deps: Vec<Dependency>, relation: &str) -> NodeParams {
    NodeParams {
        title: title.into(),
        node_type: NodeType::Deduction,
        tags: vec![],
        dependencies: deps,
        relation: Some(relation.into()),
        content: format!("# {title}\n"),
    }
}

fn dep(id: &str) -> Dependency {
    Dependency { node_id: id.into(), annotation: None }
}

/// A node as a file on disk would describe it.
fn file_node(id: &str, node_type: NodeType, deps: &[&str], relation: Option<&str>) -> Node {
    Node {
        frontmatter: NodeFrontmatter {
            id: id.into(),
            title: format!("Node {id}"),
            node_type,
            tags: vec![],
            status: Status::Current,
            status_updated_at: "2026-01-01T00:00:00Z".into(),
            status_updated_by: "test".into(),
            stale_sources: vec![],
            created_at: "2026-01-01T00:00:00Z".into(),
            created_by: "test".into(),
            dependencies: deps.iter().map(|d| dep(d)).collect(),
            relation: relation.map(|r| r.to_string()),
        },
        content: String::new(),
    }
}

/// A knowledge base loaded from the given nodes, one file each.
fn loaded(nodes: Vec<Node>) -> KnowledgeBase {
    let files: Vec<(String, Result<Node, Error>)> = nodes
        .into_iter()
        .map(|n| (format!("nodes/{}.md", n.frontmatter.id), Ok(n)))
        .collect();
    let (kb, warnings) = KnowledgeBase::load("/projects/kb".into(), ProjectConfig::default(), files);
    assert!(warnings.is_empty());
    kb
}

#[test]
fn validate_clean_project() {
    let mut kb = empty_kb();
    let a_id = kb.create_node(axiom_params("Axiom A")).unwrap().frontmatter.id;
    let b_id = kb.create_node(axiom_params("Axiom B")).unwrap().frontmatter.id;
    kb.create_node(deduction(
        "Deduction C",
        vec![dep(&a_id), dep(&b_id)],
        &format!("{a_id} AND {b_id}"),
    ))
    .unwrap();

    let report = kb.validate();
    assert!(report.is_valid());
    assert_eq!(report.error_count, 0);
    assert_eq!(report.warning_count, 0);
}

#[test]
fn validate_empty_project() {
    let kb = empty_kb();
    let report = kb.validate();
    assert!(report.is_valid());
    assert_eq!(report.issues.len(), 0);
}

#[test]
fn validate_detects_direct_cycle() {
    let kb = loaded(vec![
        file_node("n-aaa111", NodeType::Deduction, &["n-bbb222"], Some("n-bbb222")),
        file_node("n-bbb222", NodeType::Deduction, &["n-aaa111"], Some("n-aaa111")),
    ]);
    let report = kb.validate();
    let cycle_issues: Vec<_> =
        report.issues.iter().filter(|i| i.rule == ValidationRule::NoCycles).collect();
    assert_eq!(cycle_issues.len(), 1);
    assert_eq!(cycle_issues[0].severity, Severity::Error);
    assert!(cycle_issues[0].node_id.is_none());
    let path = cycle_issues[0].context.as_ref().unwrap();
    assert_eq!(
        *path,
        vec!["n-aaa111".to_string(), "n-bbb222".to_string(), "n-aaa111".to_string()]
    );
    assert_eq!(
        cycle_issues[0].message,
        "dependency graph contains a cycle: n-aaa111 -> n-bbb222 -> n-aaa111"
    );
}

#[test]
fn validate_detects_transitive_cycle() {
    let kb = loaded(vec![
        file_node("n-aaa111", NodeType::Deduction, &["n-bbb222"], Some("n-bbb222")),
        file_node("n-bbb222", NodeType::Deduction, &["n-ccc333"], Some("n-ccc333")),
        file_node("n-ccc333", NodeType::Deduction, &["n-aaa111"], Some("n-aaa111")),
    ]);
    let report = kb.validate();
    let cycle = report.issues.iter().find(|i| i.rule == ValidationRule::NoCycles).unwrap();
    let path = cycle.context.as_ref().unwrap();
    assert_eq!(path.len(), 4);
    assert_eq!(path[0], path[3]);
}

#[test]
fn validate_cycle_path_leaves_out_the_lead_in() {
    // n-aaa111 depends on the cycle n-bbb222 <-> n-ccc333 but is not on it.
    let kb = loaded(vec![
        file_node("n-bbb222", NodeType::Deduction, &["n-ccc333"], Some("n-ccc333")),
        file_node("n-ccc333", NodeType::Deduction, &["n-bbb222"], Some("n-bbb222")),
        file_node("n-aaa111", NodeType::Deduction, &["n-bbb222"], Some("n-bbb222")),
    ]);
    let report = kb.validate();
    let cycle = report.issues.iter().find(|i| i.rule == ValidationRule::NoCycles).unwrap();
    let path = cycle.context.as_ref().unwrap();
    assert_eq!(path.len(), 3);
    assert!(!path.contains(&"n-aaa111".to_string()));
}

#[test]
fn validate_no_false_positive_on_diamond() {
    let mut kb = empty_kb();
    let a_id = kb.create_node(axiom_params("A")).unwrap().frontmatter.id;
    let b_id = kb.create_node(axiom_params("B")).unwrap().frontmatter.id;
    for name in ["C", "D"] {
        kb.create_node(deduction(
            name,
            vec![dep(&a_id), dep(&b_id)],
            &format!("{a_id} AND {b_id}"),
        ))
        .unwrap();
    }
    let report = kb.validate();
    assert!(!report.issues.iter().any(|i| i.rule == ValidationRule::NoCycles));
}

#[test]
fn open_project_with_cyclic_data_does_not_panic() {
    let kb = loaded(vec![
        file_node("n-aaa111", NodeType::Deduction, &["n-bbb222"], Some("n-bbb222")),
        file_node("n-bbb222", NodeType::Deduction, &["n-aaa111"], Some("n-aaa111")),
    ]);
    assert_eq!(kb.node_count(), 2);
    let mut deps = kb.transitive_dependencies_of("n-aaa111");
    deps.sort();
    assert_eq!(deps, vec!["n-aaa111".to_string(), "n-bbb222".to_string()]);
}

#[test]
fn validate_detects_dangling_reference() {
    let kb = loaded(vec![file_node(
        "n-aaa111",
        NodeType::Deduction,
        &["n-missing"],
        Some("n-missing"),
    )]);
    let report = kb.validate();
    let dangling: Vec<_> = report
        .issues
        .iter()
        .filter(|i| i.rule == ValidationRule::NoDanglingReferences)
        .collect();
    assert_eq!(dangling.len(), 1);
    assert_eq!(dangling[0].severity, Severity::Error);
    assert_eq!(
        dangling[0].message,
        "node `n-aaa111` depends on `n-missing` which does not exist"
    );
    assert_eq!(dangling[0].context, Some(vec!["n-missing".to_string()]));
}

#[test]
fn validate_detects_unknown_operand_in_relation() {
    let kb = loaded(vec![
        file_node("n-aaa111", NodeType::Axiom, &[], None),
        file_node("n-ccc333", NodeType::Deduction, &["n-aaa111"], Some("n-aaa111 AND n-bbb222")),
    ]);
    let report = kb.validate();
    assert!(report
        .issues
        .iter()
        .any(|i| i.rule == ValidationRule::RelationIntegrity && i.message.contains("n-bbb222")));
}

#[test]
fn validate_detects_missing_operand_in_relation() {
    let mut kb = empty_kb();
    let a_id = kb.create_node(axiom_params("A")).unwrap().frontmatter.id;
    let b_id = kb.create_node(axiom_params("B")).unwrap().frontmatter.id;
    kb.create_node(deduction("C", vec![dep(&a_id), dep(&b_id)], &a_id)).unwrap();

    let report = kb.validate();
    assert!(report
        .issues
        .iter()
        .any(|i| i.rule == ValidationRule::RelationIntegrity && i.message.contains(&b_id)));
}

#[test]
fn validate_detects_unparseable_relation() {
    let kb = loaded(vec![
        file_node("n-aaa111", NodeType::Axiom, &[], None),
        file_node("n-bbb222", NodeType::Deduction, &["n-aaa111"], Some("(n-aaa111")),
    ]);
    let report = kb.validate();
    assert!(report.issues.iter().any(|i| i.rule == ValidationRule::RelationParsability));
}

#[test]
fn validate_detects_axiom_with_deps() {
    let kb = loaded(vec![file_node("n-aaa111", NodeType::Axiom, &["n-bbb222"], None)]);
    let report = kb.validate();
    assert!(report.issues.iter().any(|i| {
        i.rule == ValidationRule::TypeConstraints && i.message.contains("empty dependencies")
    }));
}

#[test]
fn validate_detects_deduction_without_relation() {
    let kb = loaded(vec![
        file_node("n-aaa111", NodeType::Axiom, &[], None),
        file_node("n-bbb222", NodeType::Deduction, &["n-aaa111"], None),
    ]);
    let report = kb.validate();
    assert!(report.issues.iter().any(|i| {
        i.rule == ValidationRule::TypeConstraints && i.message.contains("relation expression")
    }));
}

#[test]
fn validate_detects_duplicate_ids() {
    let first = file_node("n-aaa111", NodeType::Axiom, &[], None);
    let mut second = file_node("n-aaa111", NodeType::Axiom, &[], None);
    second.frontmatter.title = "Duplicate".into();
    let files = vec![
        ("nodes/node-a.md".to_string(), Ok(first)),
        ("nodes/node-b.md".to_string(), Ok(second)),
    ];
    let (kb, warnings) =
        KnowledgeBase::load("/projects/kb".into(), ProjectConfig::default(), files);

    assert!(warnings.iter().any(|w| w.message.contains("duplicate")));
    assert_eq!(warnings[0].path, "nodes/node-b.md");
    assert_eq!(kb.node_count(), 1);
    assert_eq!(kb.get_node("n-aaa111").unwrap().frontmatter.title, "Node n-aaa111");

    let report = kb.validate();
    let dup: Vec<_> =
        report.issues.iter().filter(|i| i.rule == ValidationRule::NoDuplicateIds).collect();
    assert_eq!(dup.len(), 1);
    assert_eq!(dup[0].message, "duplicate node ID `n-aaa111` found in `nodes/node-b.md`");
    assert_eq!(dup[0].context, Some(vec!["nodes/node-b.md".to_string()]));
}

#[test]
fn validate_warns_on_undefined_tag() {
    let mut kb = empty_kb();
    kb.create_node(NodeParams {
        title: "Tagged".into(),
        node_type: NodeType::Axiom,
        tags: vec!["nonexistent-tag".into()],
        dependencies: vec![],
        relation: None,
        content: "# Tagged\n".into(),
    })
    .unwrap();

    let report = kb.validate();
    let tag_issues: Vec<_> =
        report.issues.iter().filter(|i| i.rule == ValidationRule::TagReference).collect();
    assert_eq!(tag_issues.len(), 1);
    assert_eq!(tag_issues[0].severity, Severity::Warning);
    assert!(tag_issues[0].message.contains("nonexistent-tag"));
    assert!(report.is_valid());
    assert_eq!(report.warning_count, 1);
}

#[test]
fn validate_defined_tags_no_warning() {
    let mut kb = empty_kb();
    kb.create_node(NodeParams {
        title: "Tagged".into(),
        node_type: NodeType::Axiom,
        tags: vec!["well-established".into(), "tentative".into()],
        dependencies: vec![],
        relation: None,
        content: "# Tagged\n".into(),
    })
    .unwrap();
    let report = kb.validate();
    assert!(!report.issues.iter().any(|i| i.rule == ValidationRule::TagReference));
}

#[test]
fn validate_warns_on_undefined_annotation() {
    let mut kb = empty_kb();
    let a_id = kb.create_node(axiom_params("A")).unwrap().frontmatter.id;
    let mut d = dep(&a_id);
    d.annotation = Some(EdgeAnnotation { label: "inspires".into() });
    let mut ok = dep(&a_id);
    ok.annotation = Some(EdgeAnnotation { label: "supports".into() });
    let c_id = kb.create_node(deduction("C", vec![d], &a_id)).unwrap().frontmatter.id;
    kb.create_node(deduction("D", vec![ok], &a_id)).unwrap();

    let report = kb.validate();
    let ann: Vec<_> =
        report.issues.iter().filter(|i| i.rule == ValidationRule::AnnotationReference).collect();
    assert_eq!(ann.len(), 1);
    assert_eq!(ann[0].severity, Severity::Warning);
    assert_eq!(
        ann[0].message,
        format!("node `{c_id}` uses annotation `inspires` on dependency `{a_id}` not defined in config")
    );
}

#[test]
fn validate_collects_all_issues() {
    let mut kb = loaded(vec![file_node(
        "n-zzz000",
        NodeType::Deduction,
        &["n-ghost"],
        Some("n-ghost"),
    )]);
    kb.create_node(NodeParams {
        title: "Tagged Axiom".into(),
        node_type: NodeType::Axiom,
        tags: vec!["bad-tag".into()],
        dependencies: vec![],
        relation: None,
        content: "# Tagged\n".into(),
    })
    .unwrap();

    let report = kb.validate();
    assert!(report.error_count >= 1);
    assert!(report.warning_count >= 1);
    assert!(!report.is_valid());
    assert!(report.issues.len() >= 2);
    assert_eq!(report.error_count + report.warning_count, report.issues.len());
    // Errors of the dangling check come before the tag warnings.
    let first_warning = report.issues.iter().position(|i| i.severity == Severity::Warning).unwrap();
    let dangling = report
        .issues
        .iter()
        .position(|i| i.rule == ValidationRule::NoDanglingReferences)
        .unwrap();
    assert!(dangling < first_warning);
}
