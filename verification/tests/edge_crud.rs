use ex_grapha_core::{
    config::ProjectConfig,
    error::Error,
    model::{Dependency, EdgeAnnotation, NodeType},
    node::NodeParams,
    project::KnowledgeBase,
};

fn empty_kb() -> KnowledgeBase {
    KnowledgeBase::new("/projects/kb".to_string(), ProjectConfig::default())
}

fn axiom_params(title: &str) -> NodeParams {
    NodeParams {
        title: title.into(),
        node_type: NodeType::Axiom,
        tags: vec![],
        dependencies: vec![],
        relation: None,
        content: String::new(),
    }
}

fn deduction(title: &str, dep_ids: &[&str], relation: &str) -> NodeParams {
    NodeParams {
        title: title.into(),
        node_type: NodeType::Deduction,
        tags: vec![],
        dependencies: dep_ids
            .iter()
            .map(|id| Dependency { node_id: id.to_string(), annotation: None })
            .collect(),
        relation: Some(relation.into()),
        content: String::new(),
    }
}

fn new_axiom(kb: &mut KnowledgeBase, title: &str) -> String {
    kb.create_node(axiom_params(title)).unwrap().frontmatter.id
}

#[test]
fn create_edge_basic() {
    let mut kb = empty_kb();
    let a_id = new_axiom(&mut kb, "A");
    let b_id = new_axiom(&mut kb, "B");

    kb.create_edge(&b_id, &a_id, None).unwrap();

    let b_node = kb.get_node(&b_id).unwrap();
    assert_eq!(b_node.frontmatter.dependencies.len(), 1);
    assert_eq!(b_node.frontmatter.dependencies[0].node_id, a_id);
    assert!(b_node.frontmatter.dependencies[0].annotation.is_none());

    assert!(kb.dependents_of(&a_id).contains(&b_id));
    assert!(kb.transitive_dependencies_of(&b_id).contains(&a_id));
}

#[test]
fn create_edge_with_annotation() {
    let mut kb = empty_kb();
    let a_id = new_axiom(&mut kb, "A");
    let b_id = new_axiom(&mut kb, "B");

    kb.create_edge(&b_id, &a_id, Some(EdgeAnnotation { label: "requires".into() })).unwrap();

    let b_node = kb.get_node(&b_id).unwrap();
    assert_eq!(
        b_node.frontmatter.dependencies[0].annotation.as_ref().unwrap().label,
        "requires"
    );
}

#[test]
fn create_edge_node_not_found() {
    let mut kb = empty_kb();
    let a_id = new_axiom(&mut kb, "A");

    let err = kb.create_edge("n-nonexistent", &a_id, None).unwrap_err();
    assert!(matches!(err, Error::NodeNotFound(ref id) if id == "n-nonexistent"));

    let err = kb.create_edge(&a_id, "n-nonexistent", None).unwrap_err();
    assert!(matches!(err, Error::NodeNotFound(ref id) if id == "n-nonexistent"));
}

#[test]
fn create_edge_already_exists() {
    let mut kb = empty_kb();
    let a_id = new_axiom(&mut kb, "A");
    let b_id = new_axiom(&mut kb, "B");

    kb.create_edge(&b_id, &a_id, None).unwrap();
    let err = kb.create_edge(&b_id, &a_id, None).unwrap_err();
    assert!(matches!(err, Error::EdgeAlreadyExists { .. }));
    assert_eq!(err.to_string(), format!("edge already exists: {b_id} -> {a_id}"));
    assert_eq!(kb.get_node(&b_id).unwrap().frontmatter.dependencies.len(), 1);
}

#[test]
fn create_edge_self_loop() {
    let mut kb = empty_kb();
    let a_id = new_axiom(&mut kb, "A");
    let err = kb.create_edge(&a_id, &a_id, None).unwrap_err();
    assert!(matches!(err, Error::CycleDetected { .. }));
}

#[test]
fn create_edge_direct_cycle() {
    let mut kb = empty_kb();
    let a_id = new_axiom(&mut kb, "A");
    let b_id = new_axiom(&mut kb, "B");

    kb.create_edge(&b_id, &a_id, None).unwrap();
    let err = kb.create_edge(&a_id, &b_id, None).unwrap_err();
    match err {
        Error::CycleDetected { path } => assert_eq!(path, vec![a_id.clone(), b_id.clone()]),
        other => panic!("expected CycleDetected, got {:?}", other),
    }
    assert!(kb.get_node(&a_id).unwrap().frontmatter.dependencies.is_empty());
}

#[test]
fn create_edge_transitive_cycle() {
    let mut kb = empty_kb();
    let a_id = new_axiom(&mut kb, "A");
    let b_id = new_axiom(&mut kb, "B");
    let c_id = new_axiom(&mut kb, "C");

    kb.create_edge(&b_id, &a_id, None).unwrap();
    kb.create_edge(&c_id, &b_id, None).unwrap();

    let err = kb.create_edge(&a_id, &c_id, None).unwrap_err();
    assert!(matches!(err, Error::CycleDetected { .. }));
    assert_eq!(
        err.to_string(),
        format!("adding this edge would create a cycle: {a_id} -> {c_id}")
    );
}

#[test]
fn validate_edge_deletion_not_last() {
    let mut kb = empty_kb();
    let a_id = new_axiom(&mut kb, "A");
    let b_id = new_axiom(&mut kb, "B");
    let c_id = kb
        .create_node(deduction("C deduction", &[&a_id, &b_id], &format!("({a_id} AND {b_id})")))
        .unwrap()
        .frontmatter
        .id;

    let check = kb.validate_edge_deletion(&c_id, &a_id).unwrap();
    assert!(!check.is_last_dependency);
    assert_eq!(check.node_title, "C deduction");
}

#[test]
fn validate_edge_deletion_last() {
    let mut kb = empty_kb();
    let a_id = new_axiom(&mut kb, "A");
    let b_id = kb.create_node(deduction("B deduction", &[&a_id], &a_id)).unwrap().frontmatter.id;

    let check = kb.validate_edge_deletion(&b_id, &a_id).unwrap();
    assert!(check.is_last_dependency);
    assert_eq!(check.node_title, "B deduction");
}

#[test]
fn validate_edge_deletion_missing_edge() {
    let mut kb = empty_kb();
    let a_id = new_axiom(&mut kb, "A");
    let b_id = new_axiom(&mut kb, "B");
    let err = kb.validate_edge_deletion(&b_id, &a_id).unwrap_err();
    assert!(matches!(err, Error::EdgeNotFound { .. }));
    let err = kb.validate_edge_deletion("n-nope00", &a_id).unwrap_err();
    assert!(matches!(err, Error::NodeNotFound(_)));
}

#[test]
fn delete_edge_basic() {
    let mut kb = empty_kb();
    let a_id = new_axiom(&mut kb, "A");
    let b_id = new_axiom(&mut kb, "B");
    let c_id = kb
        .create_node(deduction("C", &[&a_id, &b_id], &format!("({a_id} AND {b_id})")))
        .unwrap()
        .frontmatter
        .id;

    kb.delete_edge(&c_id, &a_id).unwrap();

    let c_node = kb.get_node(&c_id).unwrap();
    assert_eq!(c_node.frontmatter.dependencies.len(), 1);
    assert_eq!(c_node.frontmatter.dependencies[0].node_id, b_id);
    assert!(!kb.dependents_of(&a_id).contains(&c_id));
}

#[test]
fn delete_edge_not_found() {
    let mut kb = empty_kb();
    let a_id = new_axiom(&mut kb, "A");
    let b_id = new_axiom(&mut kb, "B");
    let err = kb.delete_edge(&a_id, &b_id).unwrap_err();
    assert!(matches!(err, Error::EdgeNotFound { .. }));
    assert_eq!(err.to_string(), format!("edge not found: {a_id} -> {b_id}"));
}

#[test]
fn remove_dependency_and_convert_to_axiom_basic() {
    let mut kb = empty_kb();
    let a_id = new_axiom(&mut kb, "A");
    let b_id = kb.create_node(deduction("B", &[&a_id], &a_id)).unwrap().frontmatter.id;
    assert_eq!(kb.get_node(&b_id).unwrap().frontmatter.node_type, NodeType::Deduction);

    kb.remove_dependency_and_convert_to_axiom(&b_id, &a_id).unwrap();

    let b_node = kb.get_node(&b_id).unwrap();
    assert_eq!(b_node.frontmatter.node_type, NodeType::Axiom);
    assert!(b_node.frontmatter.dependencies.is_empty());
    assert!(b_node.frontmatter.relation.is_none());
    assert!(b_node.frontmatter.validate_type_constraints().is_ok());
}

#[test]
fn update_edge_annotation_basic() {
    let mut kb = empty_kb();
    let a_id = new_axiom(&mut kb, "A");
    let b_id = new_axiom(&mut kb, "B");
    kb.create_edge(&b_id, &a_id, None).unwrap();

    kb.update_edge_annotation(&b_id, &a_id, Some(EdgeAnnotation { label: "supports".into() }))
        .unwrap();

    let b_node = kb.get_node(&b_id).unwrap();
    assert_eq!(
        b_node.frontmatter.dependencies[0].annotation.as_ref().unwrap().label,
        "supports"
    );
}

#[test]
fn update_edge_annotation_remove() {
    let mut kb = empty_kb();
    let a_id = new_axiom(&mut kb, "A");
    let b_id = new_axiom(&mut kb, "B");
    kb.create_edge(&b_id, &a_id, Some(EdgeAnnotation { label: "requires".into() })).unwrap();

    kb.update_edge_annotation(&b_id, &a_id, None).unwrap();

    let b_node = kb.get_node(&b_id).unwrap();
    assert!(b_node.frontmatter.dependencies[0].annotation.is_none());
}

#[test]
fn update_edge_annotation_not_found() {
    let mut kb = empty_kb();
    let a_id = new_axiom(&mut kb, "A");
    let b_id = new_axiom(&mut kb, "B");
    let err = kb
        .update_edge_annotation(&a_id, &b_id, Some(EdgeAnnotation { label: "test".into() }))
        .unwrap_err();
    assert!(matches!(err, Error::EdgeNotFound { .. }));
}

#[test]
fn graph_built_by_create_edge_validates_without_cycles() {
    let mut kb = empty_kb();
    let ids: Vec<String> = (0..5).map(|i| new_axiom(&mut kb, &format!("N{i}"))).collect();
    // Try every ordered pair; the accepted ones never form a cycle.
    for x in &ids {
        for y in &ids {
            let _ = kb.create_edge(x, y, None);
        }
    }
    let report = kb.validate();
    assert!(report
        .issues
        .iter()
        .all(|i| i.rule != ex_grapha_core::validation::ValidationRule::NoCycles));
}

#[test]
fn delete_edge_undoes_create_edge() {
    let mut kb = empty_kb();
    let a_id = new_axiom(&mut kb, "A");
    let b_id = new_axiom(&mut kb, "B");
    let before = kb.nodes().clone();
    kb.create_edge(&b_id, &a_id, Some(EdgeAnnotation { label: "requires".into() })).unwrap();
    assert_ne!(*kb.nodes(), before);
    kb.delete_edge(&b_id, &a_id).unwrap();
    assert_eq!(*kb.nodes(), before);
}

#[test]
fn validate_edge_deletion_last_when_every_entry_names_it() {
    let mut kb = empty_kb();
    let a_id = new_axiom(&mut kb, "A");
    let b_id = kb.create_node(deduction("Twice", &[&a_id, &a_id], &a_id)).unwrap().frontmatter.id;
    let check = kb.validate_edge_deletion(&b_id, &a_id).unwrap();
    assert!(check.is_last_dependency);
    kb.delete_edge(&b_id, &a_id).unwrap();
    assert!(kb.get_node(&b_id).unwrap().frontmatter.dependencies.is_empty());
}
