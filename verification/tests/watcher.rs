use ex_grapha_core::{
    config::ProjectConfig,
    events::{event_for_change, NodeEvent},
    model::{Dependency, Node, NodeFrontmatter, NodeType, Status},
    node::NodeParams,
    project::KnowledgeBase,
    watcher::{NodeChangeKind, NodeChangeResult},
};

fn empty_kb() -> KnowledgeBase {
    KnowledgeBase::new("/projects/kb".to_string(), ProjectConfig::default())
}

fn axiom_params(title: &str) -> NodeParams {
    NodeParams {
        title: title.into(),
        node_type: NodeType::Axiom,
        tags: vec![],
        dependencies: vec![],
        relation: None,
        content: format!("# {title}\n"),
    }
}

fn deduction(title: &str, dep_ids: &[&str], relation: &str) -> NodeParams {
    NodeParams {
        title: title.into(),
        node_type: NodeType::Deduction,
        tags: vec![],
        dependencies: dep_ids
            .iter()
            .map(|id| Dependency { node_id: id.to_string(), annotation: None })
            .collect(),
        relation: Some(relation.into()),
        content: format!("# {title}\n"),
    }
}

/// An axiom as an externally written file would describe it.
fn external_axiom(id: &str, title: &str) -> Node {
    Node {
        frontmatter: NodeFrontmatter {
            id: id.into(),
            title: title.into(),
            node_type: NodeType::Axiom,
            tags: vec![],
            status: Status::Current,
            status_updated_at: "2026-01-01T00:00:00Z".into(),
            status_updated_by: "external".into(),
            stale_sources: vec![],
            created_at: "2026-01-01T00:00:00Z".into(),
            created_by: "external".into(),
            dependencies: vec![],
            relation: None,
        },
        content: format!("# {title}\n"),
    }
}

/// A deduction as an externally written file would describe it.
fn external_deduction(id: &str, title: &str, deps: &[&str], relation: &str) -> Node {
    let mut n = external_axiom(id, title);
    n.frontmatter.node_type = NodeType::Deduction;
    n.frontmatter.dependencies =
        deps.iter().map(|d| Dependency { node_id: d.to_string(), annotation: None }).collect();
    n.frontmatter.relation = Some(relation.into());
    n
}

#[test]
fn ingest_external_node_create() {
    let mut kb = empty_kb();
    assert_eq!(kb.node_count(), 0);

    let result = kb.ingest_external_node(external_axiom("n-ext001", "External Axiom"));
    assert_eq!(result.kind, NodeChangeKind::Created);
    assert_eq!(result.node_id, "n-ext001");
    assert!(result.stale_affected.is_empty());
    assert!(result.orphaned_dependents.is_empty());

    assert_eq!(kb.node_count(), 1);
    let node = kb.get_node("n-ext001").unwrap();
    assert_eq!(node.frontmatter.title, "External Axiom");
}

#[test]
fn ingest_external_node_modify_triggers_staleness() {
    let mut kb = empty_kb();
    let a = kb.create_node(axiom_params("A")).unwrap();
    let a_id = a.frontmatter.id.clone();
    let b_id = kb.create_node(deduction("B", &[&a_id], &a_id)).unwrap().frontmatter.id;
    assert_eq!(kb.get_node(&b_id).unwrap().frontmatter.status, Status::Current);

    let mut edited = a.clone();
    edited.frontmatter.title = "A (externally edited)".into();
    edited.content = "# Changed outside\n".into();
    let result = kb.ingest_external_node(edited);

    assert_eq!(result.kind, NodeChangeKind::Modified);
    assert_eq!(result.node_id, a_id);
    assert!(result.stale_affected.contains(&b_id));
    assert_eq!(kb.get_node(&b_id).unwrap().frontmatter.status, Status::Stale);
    assert_eq!(kb.get_node(&a_id).unwrap().frontmatter.title, "A (externally edited)");
}

#[test]
fn ingest_external_node_self_write_unchanged() {
    let mut kb = empty_kb();
    let a = kb.create_node(axiom_params("A")).unwrap();
    let a_id = a.frontmatter.id.clone();

    let result = kb.ingest_external_node(a.clone());
    assert_eq!(result.kind, NodeChangeKind::Unchanged);
    assert_eq!(result.node_id, a_id);
    assert_eq!(*kb.get_node(&a_id).unwrap(), a);
}

#[test]
fn remove_external_node_basic() {
    let mut kb = empty_kb();
    let a_id = kb.create_node(axiom_params("A")).unwrap().frontmatter.id;
    assert_eq!(kb.node_count(), 1);

    let result = kb.remove_external_node(&a_id).unwrap();
    assert_eq!(result.kind, NodeChangeKind::Deleted);
    assert_eq!(result.node_id, a_id);
    assert!(result.orphaned_dependents.is_empty());
    assert_eq!(kb.node_count(), 0);
    assert!(kb.get_node(&a_id).is_err());
}

#[test]
fn remove_external_node_reports_orphaned_dependents() {
    let mut kb = empty_kb();
    let a_id = kb.create_node(axiom_params("A")).unwrap().frontmatter.id;
    let b_id = kb.create_node(deduction("B", &[&a_id], &a_id)).unwrap().frontmatter.id;

    let result = kb.remove_external_node(&a_id).unwrap();
    assert_eq!(result.kind, NodeChangeKind::Deleted);
    assert!(result.orphaned_dependents.contains(&b_id));
    assert!(kb.get_node(&a_id).is_err());
    assert!(kb.get_node(&b_id).is_ok());
}

#[test]
fn remove_external_node_nonexistent_errors() {
    let mut kb = empty_kb();
    let err = kb.remove_external_node("n-nonexistent").unwrap_err();
    assert!(err.to_string().contains("not found"));
}

#[test]
fn set_config_picks_up_changes() {
    let mut kb = empty_kb();
    let mut config = ProjectConfig::default();
    config.display.relation_nodes = false;
    config.tag_definitions.truncate(1);
    config.tag_definitions[0].name = "custom-tag".into();
    kb.set_config(config);
    assert!(!kb.config().display.relation_nodes);
    assert_eq!(kb.config().tag_definitions.len(), 1);
    assert_eq!(kb.config().tag_definitions[0].name, "custom-tag");
}

#[test]
fn indexes_rebuilt_after_external_create() {
    let mut kb = empty_kb();
    let a_id = kb.create_node(axiom_params("A")).unwrap().frontmatter.id;

    let result =
        kb.ingest_external_node(external_deduction("n-ext002", "External B", &[&a_id], &a_id));
    assert_eq!(result.kind, NodeChangeKind::Created);
    assert!(kb.dependents_of(&a_id).contains(&"n-ext002".to_string()));
    assert!(kb.transitive_dependencies_of("n-ext002").contains(&a_id));
}

#[test]
fn indexes_rebuilt_after_external_delete() {
    let mut kb = empty_kb();
    let a_id = kb.create_node(axiom_params("A")).unwrap().frontmatter.id;
    let b_id = kb.create_node(deduction("B", &[&a_id], &a_id)).unwrap().frontmatter.id;
    assert!(kb.dependents_of(&a_id).contains(&b_id));

    kb.remove_external_node(&b_id).unwrap();
    assert!(kb.dependents_of(&a_id).is_empty());
}

#[test]
fn events_follow_change_kinds() {
    let created = NodeChangeResult {
        node_id: "n-000001".into(),
        kind: NodeChangeKind::Created,
        stale_affected: vec![],
        orphaned_dependents: vec![],
    };
    match event_for_change(&created) {
        Some(NodeEvent::Created(e)) => assert_eq!(e.node_id, "n-000001"),
        other => panic!("unexpected {:?}", other),
    }

    let modified = NodeChangeResult {
        node_id: "n-000002".into(),
        kind: NodeChangeKind::Modified,
        stale_affected: vec!["n-000003".into()],
        orphaned_dependents: vec![],
    };
    match event_for_change(&modified) {
        Some(NodeEvent::Modified(e)) => {
            assert_eq!(e.node_id, "n-000002");
            assert_eq!(e.stale_affected, vec!["n-000003".to_string()]);
        }
        other => panic!("unexpected {:?}", other),
    }

    let deleted = NodeChangeResult {
        node_id: "n-000004".into(),
        kind: NodeChangeKind::Deleted,
        stale_affected: vec![],
        orphaned_dependents: vec!["n-000005".into()],
    };
    match event_for_change(&deleted) {
        Some(NodeEvent::Deleted(e)) => {
            assert_eq!(e.node_id, "n-000004");
            assert_eq!(e.orphaned_dependents, vec!["n-000005".to_string()]);
        }
        other => panic!("unexpected {:?}", other),
    }

    let unchanged = NodeChangeResult {
        node_id: "n-000006".into(),
        kind: NodeChangeKind::Unchanged,
        stale_affected: vec![],
        orphaned_dependents: vec![],
    };
    assert!(event_for_change(&unchanged).is_none());
}
