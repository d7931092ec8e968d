use ex_grapha_core::{
    config::ProjectConfig,
    error::Error,
    model::{Node, NodeFrontmatter, NodeType, Status},
    project::{scaffold::{scaffold, ScaffoldStep}, InitOptions, KnowledgeBase},
};

/// Options with nothing optional.
const DEFAULTS: InitOptions = InitOptions { include_git_hook: false, include_github_workflow: false };

fn axiom_node(id: &str) -> Node {
    Node {
        frontmatter: NodeFrontmatter {
            id: id.into(),
            title: format!("Axiom {id}"),
            node_type: NodeType::Axiom,
            tags: vec![],
            status: Status::Current,
            status_updated_at: "2026-01-01T00:00:00Z".into(),
            status_updated_by: "test".into(),
            stale_sources: vec![],
            created_at: "2026-01-01T00:00:00Z".into(),
            created_by: "test".into(),
            dependencies: vec![],
            relation: None,
        },
        content: String::new(),
    }
}

fn dirs(steps: &[ScaffoldStep]) -> Vec<String> {
    steps
        .iter()
        .filter_map(|s| match s {
            ScaffoldStep::Dir(d) => Some(d.clone()),
            _ => None,
        })
        .collect()
}

fn files(steps: &[ScaffoldStep]) -> Vec<(String, String)> {
    steps
        .iter()
        .filter_map(|s| match s {
            ScaffoldStep::File(p, t) => Some((p.clone(), t.clone())),
            _ => None,
        })
        .collect()
}

#[test]
fn init_creates_directory_structure() {
    let steps = scaffold(&InitOptions { include_git_hook: true, include_github_workflow: true });
    let d = dirs(&steps);
    assert!(d.contains(&"nodes".to_string()));
    assert!(d.contains(&"assets".to_string()));
    assert!(d.contains(&".knowledgebase".to_string()));
    let f: Vec<String> = files(&steps).into_iter().map(|(p, _)| p).collect();
    assert!(f.contains(&".knowledgebase/hooks/validate.sh".to_string()));
    assert!(f.contains(&".github/workflows/validate.yaml".to_string()));
    assert!(f.contains(&"README.md".to_string()));
    assert!(f.contains(&".gitignore".to_string()));
    assert_eq!(steps.iter().filter(|s| matches!(s, ScaffoldStep::Config)).count(), 1);
    assert_eq!(steps.len(), 10);
}

#[test]
fn init_without_options_writes_no_hooks() {
    let steps = scaffold(&DEFAULTS);
    assert_eq!(steps.len(), 6);
    assert_eq!(dirs(&steps), vec!["nodes", "assets", ".knowledgebase"]);
    let f: Vec<String> = files(&steps).into_iter().map(|(p, _)| p).collect();
    assert_eq!(f, vec!["README.md", ".gitignore"]);
}

#[test]
fn init_options_default_to_nothing_optional() {
    let o = InitOptions::default();
    assert!(!o.include_git_hook);
    assert!(!o.include_github_workflow);
}

#[test]
fn init_gitignore_contains_positions() {
    let steps = scaffold(&DEFAULTS);
    let (_, text) = files(&steps).into_iter().find(|(p, _)| p == ".gitignore").unwrap();
    assert!(text.contains(".positions.json"));
}

#[test]
fn init_writes_default_config() {
    let config = ProjectConfig::default();
    assert_eq!(config.edge_annotations.len(), 5);
    assert_eq!(config.edge_annotations[0].label, "supports");
    assert!(config.display.edge_labels);
    assert!(config.display.edge_colors);
    assert!(config.display.relation_nodes);
    assert_eq!(config.tag_definitions.len(), 3);
    assert_eq!(config.tag_definitions[0].name, "well-established");
    assert_eq!(config.copy(), config);
}

#[test]
fn open_empty_project() {
    let (kb, warnings) = KnowledgeBase::load("/p".into(), ProjectConfig::default(), vec![]);
    assert_eq!(kb.node_count(), 0);
    assert!(warnings.is_empty());
    assert_eq!(kb.root(), "/p");
    let report = kb.validate();
    assert!(report.is_valid());
}

#[test]
fn open_project_loads_nodes() {
    let files = vec![
        ("nodes/n-aaa111.md".to_string(), Ok(axiom_node("n-aaa111"))),
        ("nodes/n-bbb222.md".to_string(), Ok(axiom_node("n-bbb222"))),
    ];
    let (kb, warnings) = KnowledgeBase::load("/p".into(), ProjectConfig::default(), files);
    assert!(warnings.is_empty());
    assert_eq!(kb.node_count(), 2);
    assert_eq!(kb.nodes()[0].frontmatter.id, "n-aaa111");
    assert_eq!(kb.nodes()[1].frontmatter.id, "n-bbb222");
    assert!(kb.duplicate_ids().is_empty());
}

#[test]
fn open_project_builds_adjacency() {
    let mut b = axiom_node("n-bbb222");
    b.frontmatter.node_type = NodeType::Deduction;
    b.frontmatter.dependencies =
        vec![ex_grapha_core::model::Dependency { node_id: "n-aaa111".into(), annotation: None }];
    b.frontmatter.relation = Some("n-aaa111".into());
    let files = vec![
        ("nodes/n-bbb222.md".to_string(), Ok(b)),
        ("nodes/n-aaa111.md".to_string(), Ok(axiom_node("n-aaa111"))),
    ];
    let (kb, _) = KnowledgeBase::load("/p".into(), ProjectConfig::default(), files);
    assert_eq!(kb.dependents_of("n-aaa111"), vec!["n-bbb222".to_string()]);
}

#[test]
fn open_project_collects_warnings_for_malformed_files() {
    let files = vec![
        ("nodes/good.md".to_string(), Ok(axiom_node("n-aaa111"))),
        ("nodes/bad.md".to_string(), Err(Error::MissingFrontmatter)),
        ("nodes/worse.md".to_string(), Err(Error::Yaml("expected a mapping".into()))),
    ];
    let (kb, warnings) = KnowledgeBase::load("/p".into(), ProjectConfig::default(), files);
    assert_eq!(kb.node_count(), 1);
    assert_eq!(warnings.len(), 2);
    assert_eq!(warnings[0].path, "nodes/bad.md");
    assert_eq!(
        warnings[0].message,
        "invalid node file: missing or malformed frontmatter delimiters"
    );
    assert_eq!(warnings[1].path, "nodes/worse.md");
    assert_eq!(warnings[1].message, "failed to parse YAML: expected a mapping");
}

#[test]
fn duplicate_keeps_first_file() {
    let mut second = axiom_node("n-aaa111");
    second.frontmatter.title = "Second".into();
    let files = vec![
        ("nodes/one.md".to_string(), Ok(axiom_node("n-aaa111"))),
        ("nodes/two.md".to_string(), Ok(second)),
    ];
    let (kb, warnings) = KnowledgeBase::load("/p".into(), ProjectConfig::default(), files);
    assert_eq!(kb.node_count(), 1);
    assert_eq!(kb.get_node("n-aaa111").unwrap().frontmatter.title, "Axiom n-aaa111");
    assert_eq!(
        kb.duplicate_ids().clone(),
        vec![("n-aaa111".to_string(), "nodes/two.md".to_string())]
    );
    assert_eq!(warnings.len(), 1);
    assert_eq!(
        warnings[0].message,
        "duplicate node ID `n-aaa111`; keeping the node loaded first"
    );
}

#[test]
fn error_messages_are_exact() {
    assert_eq!(Error::InvalidProject("missing `nodes/` directory".into()).to_string(),
        "invalid project: missing `nodes/` directory");
    assert_eq!(Error::Io("denied".into()).to_string(), "I/O error: denied");
    assert_eq!(
        Error::DeletionBlocked { node_id: "n-1".into(), dependents: vec!["n-2".into(), "n-3".into()] }
            .to_string(),
        "cannot delete node n-1 because other nodes depend on it: n-2, n-3"
    );
    assert_eq!(
        Error::CycleDetected { path: vec!["n-1".into(), "n-2".into()] }.to_string(),
        "adding this edge would create a cycle: n-1 -> n-2"
    );
}
