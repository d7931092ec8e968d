use ex_grapha_core::{
    config::ProjectConfig,
    error::Error,
    model::{Dependency, EdgeAnnotation, NodeType, Status},
    node::NodeParams,
    project::KnowledgeBase,
};

/// An empty in-memory knowledge base.
fn empty_kb() -> KnowledgeBase {
    KnowledgeBase::new("/projects/kb".to_string(), ProjectConfig::default())
}

/// Shorthand for building an axiom NodeParams.
fn axiom_params(title: &str, content: &str) -> NodeParams {
    NodeParams {
        title: title.into(),
        node_type: NodeType::Axiom,
        tags: vec![],
        dependencies: vec![],
        relation: None,
        content: content.into(),
    }
}

fn deduction_on(title: &str, dep: &str) -> NodeParams {
    NodeParams {
        title: title.into(),
        node_type: NodeType::Deduction,
        tags: vec![],
        dependencies: vec![Dependency { node_id: dep.into(), annotation: None }],
        relation: Some(dep.into()),
        content: "Derived.".into(),
    }
}

#[test]
fn create_axiom_node() {
    let mut kb = empty_kb();
    let node = kb
        .create_node(NodeParams {
            title: "My Axiom".into(),
            node_type: NodeType::Axiom,
            tags: vec!["physics".into()],
            dependencies: vec![],
            relation: None,
            content: "# My Axiom\n\nSome content.\n".into(),
        })
        .unwrap();

    assert!(node.frontmatter.id.starts_with("n-"));
    assert_eq!(node.frontmatter.id.len(), 8);
    assert!(node.frontmatter.id[2..].chars().all(|c| c.is_ascii_hexdigit() && !c.is_ascii_uppercase()));

    assert_eq!(node.frontmatter.title, "My Axiom");
    assert_eq!(node.frontmatter.node_type, NodeType::Axiom);
    assert_eq!(node.frontmatter.tags, vec!["physics"]);
    assert!(node.frontmatter.dependencies.is_empty());
    assert!(node.frontmatter.relation.is_none());
    assert_eq!(node.frontmatter.status, Status::Current);
    assert!(node.frontmatter.stale_sources.is_empty());
    assert_eq!(node.frontmatter.created_at, node.frontmatter.status_updated_at);
    assert_eq!(node.frontmatter.created_by, node.frontmatter.status_updated_by);

    assert_eq!(kb.node_count(), 1);
    assert!(kb.contains_node(&node.frontmatter.id));
}

#[test]
fn create_deduction_node() {
    let mut kb = empty_kb();
    let axiom_node = kb.create_node(axiom_params("Base Axiom", "Axiom content.")).unwrap();
    let axiom_id = axiom_node.frontmatter.id.clone();

    let deduction = kb
        .create_node(NodeParams {
            title: "My Deduction".into(),
            node_type: NodeType::Deduction,
            tags: vec![],
            dependencies: vec![Dependency {
                node_id: axiom_id.clone(),
                annotation: Some(EdgeAnnotation { label: "requires".into() }),
            }],
            relation: Some(axiom_id.clone()),
            content: "Deduction content.".into(),
        })
        .unwrap();

    assert_eq!(deduction.frontmatter.node_type, NodeType::Deduction);
    assert_eq!(deduction.frontmatter.dependencies.len(), 1);
    assert!(deduction.frontmatter.relation.is_some());
    assert_eq!(kb.node_count(), 2);

    let deps = kb.dependents_of(&axiom_id);
    assert!(deps.contains(&deduction.frontmatter.id));
}

#[test]
fn create_deduction_without_deps_fails() {
    let mut kb = empty_kb();
    let err = kb
        .create_node(NodeParams {
            title: "Bad Deduction".into(),
            node_type: NodeType::Deduction,
            tags: vec![],
            dependencies: vec![],
            relation: Some("n-000000".into()),
            content: "Content.".into(),
        })
        .unwrap_err();
    assert!(matches!(err, Error::TypeConstraint(_)));
    assert_eq!(kb.node_count(), 0);
}

#[test]
fn create_axiom_with_deps_fails() {
    let mut kb = empty_kb();
    let err = kb
        .create_node(NodeParams {
            title: "Bad Axiom".into(),
            node_type: NodeType::Axiom,
            tags: vec![],
            dependencies: vec![Dependency { node_id: "n-000000".into(), annotation: None }],
            relation: None,
            content: "Content.".into(),
        })
        .unwrap_err();
    assert!(matches!(err, Error::TypeConstraint(_)));
    assert_eq!(
        err.to_string(),
        "type constraint violation: axiom nodes must have empty dependencies"
    );
}

#[test]
fn get_node_found() {
    let mut kb = empty_kb();
    let created = kb.create_node(axiom_params("Test", "Body.")).unwrap();
    let fetched = kb.get_node(&created.frontmatter.id).unwrap();
    assert_eq!(fetched.frontmatter.title, "Test");
    assert_eq!(*fetched, created);
}

#[test]
fn get_node_not_found() {
    let kb = empty_kb();
    let err = kb.get_node("n-nonexistent").unwrap_err();
    assert!(matches!(err, Error::NodeNotFound(_)));
    assert_eq!(err.to_string(), "node not found: n-nonexistent");
}

#[test]
fn update_node_title_and_content() {
    let mut kb = empty_kb();
    let created = kb.create_node(axiom_params("Original", "Original content.")).unwrap();
    let id = created.frontmatter.id.clone();

    let updated = kb
        .update_node(
            &id,
            NodeParams {
                title: "Updated Title".into(),
                node_type: NodeType::Axiom,
                tags: vec!["new-tag".into()],
                dependencies: vec![],
                relation: None,
                content: "Updated content.".into(),
            },
        )
        .unwrap();

    assert_eq!(updated.frontmatter.title, "Updated Title");
    assert_eq!(updated.frontmatter.tags, vec!["new-tag"]);
    assert_eq!(updated.content, "Updated content.");
    assert_eq!(updated.frontmatter.id, id);
    assert_eq!(updated.frontmatter.created_at, created.frontmatter.created_at);
    assert_eq!(updated.frontmatter.created_by, created.frontmatter.created_by);

    let stored = kb.get_node(&id).unwrap();
    assert_eq!(stored.frontmatter.title, "Updated Title");
    assert_eq!(kb.node_count(), 1);
}

#[test]
fn update_node_not_found() {
    let mut kb = empty_kb();
    let err = kb.update_node("n-nonexistent", axiom_params("Title", "Content.")).unwrap_err();
    assert!(matches!(err, Error::NodeNotFound(_)));
}

#[test]
fn update_node_type_violation_leaves_node_unchanged() {
    let mut kb = empty_kb();
    let created = kb.create_node(axiom_params("Original", "Original content.")).unwrap();
    let id = created.frontmatter.id.clone();
    let mut bad = axiom_params("Bad", "x");
    bad.relation = Some("n-000000".into());
    let err = kb.update_node(&id, bad).unwrap_err();
    assert!(matches!(err, Error::TypeConstraint(_)));
    assert_eq!(*kb.get_node(&id).unwrap(), created);
}

#[test]
fn update_type_conversion_axiom_to_deduction() {
    let mut kb = empty_kb();
    let a1_id = kb.create_node(axiom_params("Axiom 1", "Base.")).unwrap().frontmatter.id;
    let a2_id = kb.create_node(axiom_params("Axiom 2", "Will become deduction.")).unwrap().frontmatter.id;

    let updated = kb.update_node(&a2_id, deduction_on("Now Deduction", &a1_id)).unwrap();
    assert_eq!(updated.frontmatter.node_type, NodeType::Deduction);
    assert_eq!(updated.frontmatter.dependencies.len(), 1);

    let deps = kb.dependents_of(&a1_id);
    assert!(deps.contains(&a2_id));
}

#[test]
fn update_type_conversion_deduction_to_axiom() {
    let mut kb = empty_kb();
    let a_id = kb.create_node(axiom_params("Base", "Axiom.")).unwrap().frontmatter.id;
    let d_id = kb.create_node(deduction_on("Derived", &a_id)).unwrap().frontmatter.id;

    let updated = kb.update_node(&d_id, axiom_params("Now Axiom", "Standalone.")).unwrap();
    assert_eq!(updated.frontmatter.node_type, NodeType::Axiom);
    assert!(updated.frontmatter.dependencies.is_empty());
    assert!(updated.frontmatter.relation.is_none());

    assert!(kb.dependents_of(&a_id).is_empty());
}

#[test]
fn delete_node_success() {
    let mut kb = empty_kb();
    let id = kb.create_node(axiom_params("Doomed", "Bye.")).unwrap().frontmatter.id;
    kb.delete_node(&id).unwrap();
    assert!(!kb.contains_node(&id));
    assert_eq!(kb.node_count(), 0);
}

#[test]
fn delete_node_blocked_by_dependents() {
    let mut kb = empty_kb();
    let a_id = kb.create_node(axiom_params("Important", "Base.")).unwrap().frontmatter.id;
    let d1 = kb.create_node(deduction_on("First", &a_id)).unwrap().frontmatter.id;
    let d2 = kb.create_node(deduction_on("Second", &a_id)).unwrap().frontmatter.id;

    let err = kb.delete_node(&a_id).unwrap_err();
    match err {
        Error::DeletionBlocked { node_id, dependents } => {
            assert_eq!(node_id, a_id);
            let mut expected = vec![d1, d2];
            expected.sort();
            assert_eq!(dependents, expected);
        }
        other => panic!("expected DeletionBlocked, got: {:?}", other),
    }
    assert!(kb.contains_node(&a_id));
}

#[test]
fn delete_node_not_found() {
    let mut kb = empty_kb();
    let err = kb.delete_node("n-nonexistent").unwrap_err();
    assert!(matches!(err, Error::NodeNotFound(_)));
}

#[test]
fn create_node_generates_unique_ids() {
    let mut kb = empty_kb();
    let mut ids = std::collections::HashSet::new();
    for i in 0..20 {
        let node = kb.create_node(axiom_params(&format!("Node {i}"), "")).unwrap();
        ids.insert(node.frontmatter.id);
    }
    assert_eq!(ids.len(), 20);
    assert_eq!(kb.node_count(), 20);
}

#[test]
fn create_node_at_uses_given_stamp() {
    let mut kb = empty_kb();
    let node = kb
        .create_node_at(
            axiom_params("Stamped", "x"),
            "n-00abcd".to_string(),
            &"2026-01-02T03:04:05Z".to_string(),
            &"alice".to_string(),
        )
        .unwrap();
    assert_eq!(node.frontmatter.id, "n-00abcd");
    assert_eq!(node.frontmatter.created_at, "2026-01-02T03:04:05Z");
    assert_eq!(node.frontmatter.created_by, "alice");
    assert_eq!(node.frontmatter.status_updated_at, "2026-01-02T03:04:05Z");
    assert_eq!(node.frontmatter.status_updated_by, "alice");
    assert_eq!(*kb.get_node("n-00abcd").unwrap(), node);
}

#[test]
fn delete_undoes_create() {
    let mut kb = empty_kb();
    kb.create_node(axiom_params("Kept", "x")).unwrap();
    let before = kb.nodes().clone();
    let id = kb.create_node(axiom_params("Temporary", "y")).unwrap().frontmatter.id;
    kb.delete_node(&id).unwrap();
    assert_eq!(*kb.nodes(), before);
}

#[test]
fn create_node_rejects_dangling_dependency() {
    let mut kb = empty_kb();
    let err = kb.create_node(deduction_on("Orphan", "n-abcdef")).unwrap_err();
    assert!(matches!(err, Error::NodeNotFound(ref id) if id == "n-abcdef"));
    assert_eq!(kb.node_count(), 0);
}

#[test]
fn update_node_rejects_dangling_dependency() {
    let mut kb = empty_kb();
    let a_id = kb.create_node(axiom_params("A", "x")).unwrap().frontmatter.id;
    let before = kb.nodes().clone();
    let err = kb.update_node(&a_id, deduction_on("A", "n-abcdef")).unwrap_err();
    assert!(matches!(err, Error::NodeNotFound(ref id) if id == "n-abcdef"));
    assert_eq!(*kb.nodes(), before);
}

#[test]
fn update_node_rejects_a_cycle() {
    let mut kb = empty_kb();
    let a_id = kb.create_node(axiom_params("A", "x")).unwrap().frontmatter.id;
    let b_id = kb.create_node(deduction_on("B", &a_id)).unwrap().frontmatter.id;
    let before = kb.nodes().clone();
    let err = kb.update_node(&a_id, deduction_on("A", &b_id)).unwrap_err();
    match err {
        Error::CycleDetected { path } => assert_eq!(path, vec![a_id.clone(), b_id.clone()]),
        other => panic!("expected CycleDetected, got {:?}", other),
    }
    assert_eq!(*kb.nodes(), before);

    // A node cannot depend on itself either.
    let err = kb.update_node(&b_id, deduction_on("B", &b_id)).unwrap_err();
    assert!(matches!(err, Error::CycleDetected { .. }));
}

#[test]
fn created_ids_are_never_named_by_a_dependency() {
    let mut kb = empty_kb();
    let a_id = kb.create_node(axiom_params("A", "x")).unwrap().frontmatter.id;
    for i in 0..10 {
        let n = kb.create_node(deduction_on(&format!("D{i}"), &a_id)).unwrap();
        assert_ne!(n.frontmatter.id, a_id);
    }
    assert_eq!(kb.node_count(), 11);
}
