use ex_grapha_core::model::{
    Dependency, EdgeAnnotation, Node, NodeFrontmatter, NodeType, StaleSource, Status,
};

/// The axiom node of the sample project, as its file describes it.
fn axiom_node() -> Node {
    Node {
        frontmatter: NodeFrontmatter {
            id: "n-4a7b2c".into(),
            title: "Conservation of Energy".into(),
            node_type: NodeType::Axiom,
            tags: vec!["physics".into(), "well-established".into()],
            status: Status::Current,
            status_updated_at: "2026-03-04T14:30:00Z".into(),
            status_updated_by: "github-username".into(),
            stale_sources: vec![],
            created_at: "2026-02-15T10:00:00Z".into(),
            created_by: "github-username".into(),
            dependencies: vec![],
            relation: None,
        },
        content: "\n# Conservation of Energy\n\nEnergy cannot be created or destroyed in an isolated system.\n".into(),
    }
}

/// The deduction node of the sample project, as its file describes it.
fn deduction_node() -> Node {
    Node {
        frontmatter: NodeFrontmatter {
            id: "n-7c1d3e".into(),
            title: "Orbital Mechanics Follow from Newton's Laws".into(),
            node_type: NodeType::Deduction,
            tags: vec!["physics".into(), "well-established".into()],
            status: Status::Stale,
            status_updated_at: "2026-03-04T15:00:00Z".into(),
            status_updated_by: "system".into(),
            stale_sources: vec![StaleSource {
                node_id: "n-4a7b2c".into(),
                changed_at: "2026-03-04T14:30:00Z".into(),
            }],
            created_at: "2026-02-20T09:00:00Z".into(),
            created_by: "github-username".into(),
            dependencies: vec![
                Dependency {
                    node_id: "n-4a7b2c".into(),
                    annotation: Some(EdgeAnnotation { label: "requires".into() }),
                },
                Dependency {
                    node_id: "n-3f8a1d".into(),
                    annotation: Some(EdgeAnnotation { label: "supports".into() }),
                },
            ],
            relation: Some("(n-4a7b2c AND n-3f8a1d)".into()),
        },
        content: "\n# Orbital Mechanics Follow from Newton's Laws\n\nGiven conservation of energy and Newton's gravitational law...\n".into(),
    }
}

#[test]
fn axiom_validates_ok() {
    let node = axiom_node();
    assert!(node.frontmatter.validate_type_constraints().is_ok());
}

#[test]
fn deduction_validates_ok() {
    let node = deduction_node();
    assert!(node.frontmatter.validate_type_constraints().is_ok());
}

#[test]
fn axiom_with_deps_fails_validation() {
    let mut node = axiom_node();
    node.frontmatter.dependencies.push(Dependency {
        node_id: "n-aaaaaa".into(),
        annotation: None,
    });
    let err = node.frontmatter.validate_type_constraints().unwrap_err();
    assert!(err.to_string().contains("empty dependencies"));
}

#[test]
fn axiom_with_relation_fails_validation() {
    let mut node = axiom_node();
    node.frontmatter.relation = Some("n-aaaaaa".into());
    let err = node.frontmatter.validate_type_constraints().unwrap_err();
    assert!(err.to_string().contains("relation expression"));
}

#[test]
fn axiom_with_stale_sources_fails_validation() {
    let mut node = axiom_node();
    node.frontmatter.stale_sources.push(StaleSource {
        node_id: "n-aaaaaa".into(),
        changed_at: "2026-01-01T00:00:00Z".into(),
    });
    let err = node.frontmatter.validate_type_constraints().unwrap_err();
    assert!(err.to_string().contains("stale_sources"));
}

#[test]
fn deduction_without_deps_fails_validation() {
    let mut node = deduction_node();
    node.frontmatter.dependencies.clear();
    let err = node.frontmatter.validate_type_constraints().unwrap_err();
    assert!(err.to_string().contains("at least one dependency"));
}

#[test]
fn deduction_without_relation_fails_validation() {
    let mut node = deduction_node();
    node.frontmatter.relation = None;
    let err = node.frontmatter.validate_type_constraints().unwrap_err();
    assert!(err.to_string().contains("relation expression"));
}

#[test]
fn type_violation_message_is_exact() {
    let mut node = axiom_node();
    node.frontmatter.relation = Some("n-aaaaaa".into());
    let err = node.frontmatter.validate_type_constraints().unwrap_err();
    assert!(err.to_string().starts_with("type constraint violation: "));
}

#[test]
fn node_copy_is_equal() {
    let node = deduction_node();
    let copy = node.copy();
    assert_eq!(node, copy);
    assert!(node.same_as(&copy));
}

#[test]
fn node_same_as_detects_difference() {
    let node = deduction_node();
    let mut other = node.copy();
    other.content.push('!');
    assert!(!node.same_as(&other));
}
