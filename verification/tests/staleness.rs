use ex_grapha_core::{
    config::ProjectConfig,
    model::{Dependency, NodeType, Status},
    node::NodeParams,
    project::KnowledgeBase,
};

/// An empty in-memory knowledge base.
fn empty_kb() -> KnowledgeBase {
    KnowledgeBase::new("/projects/kb".to_string(), ProjectConfig::default())
}

/// Shorthand for building an axiom NodeParams.
fn axiom_params(title: &str) -> NodeParams {
    NodeParams {
        title: title.into(),
        node_type: NodeType::Axiom,
        tags: vec![],
        dependencies: vec![],
        relation: None,
        content: format!("# {title}\n"),
    }
}

/// Shorthand for building a deduction NodeParams.
fn deduction(title: &str, dep_ids: &[&str], relation: &str) -> NodeParams {
    NodeParams {
        title: title.into(),
        node_type: NodeType::Deduction,
        tags: vec![],
        dependencies: dep_ids
            .iter()
            .map(|id| Dependency {
                node_id: id.to_string(),
                annotation: None,
            })
            .collect(),
        relation: Some(relation.into()),
        content: format!("# {title}\n"),
    }
}

// ── Single-hop propagation ──────────────────────────────

#[test]
fn edit_axiom_marks_direct_dependent_stale() {
    let mut kb = empty_kb();

    let a = kb.create_node(axiom_params("Axiom A")).unwrap();
    let a_id = a.frontmatter.id.clone();

    let b = kb
        .create_node(deduction("Deduction B", &[&a_id], &a_id))
        .unwrap();
    let b_id = b.frontmatter.id.clone();

    // Both should start as Current.
    assert_eq!(
        kb.get_node(&a_id).unwrap().frontmatter.status,
        Status::Current
    );
    assert_eq!(
        kb.get_node(&b_id).unwrap().frontmatter.status,
        Status::Current
    );

    // Edit axiom A.
    kb.update_node(&a_id, axiom_params("Axiom A (edited)")).unwrap();

    // A stays current (it was just edited).
    assert_eq!(
        kb.get_node(&a_id).unwrap().frontmatter.status,
        Status::Current
    );

    // B becomes stale with A as the source.
    let b_node = kb.get_node(&b_id).unwrap();
    assert_eq!(b_node.frontmatter.status, Status::Stale);
    assert_eq!(b_node.frontmatter.stale_sources.len(), 1);
    assert_eq!(b_node.frontmatter.stale_sources[0].node_id, a_id);

}

// ── Transitive cascade ──────────────────────────────────

#[test]
fn edit_propagates_transitively() {
    let mut kb = empty_kb();

    // A → B → C
    let a = kb.create_node(axiom_params("A")).unwrap();
    let a_id = a.frontmatter.id.clone();

    let b = kb.create_node(deduction("B", &[&a_id], &a_id)).unwrap();
    let b_id = b.frontmatter.id.clone();

    let c = kb.create_node(deduction("C", &[&b_id], &b_id)).unwrap();
    let c_id = c.frontmatter.id.clone();

    // Edit A.
    kb.update_node(&a_id, axiom_params("A (edited)")).unwrap();

    // Both B and C should be stale.
    assert_eq!(
        kb.get_node(&b_id).unwrap().frontmatter.status,
        Status::Stale
    );
    assert_eq!(
        kb.get_node(&c_id).unwrap().frontmatter.status,
        Status::Stale
    );

    // Both have A as the stale source.
    assert_eq!(
        kb.get_node(&b_id).unwrap().frontmatter.stale_sources[0].node_id,
        a_id
    );
    assert_eq!(
        kb.get_node(&c_id).unwrap().frontmatter.stale_sources[0].node_id,
        a_id
    );

}

// ── Review stops propagation ────────────────────────────

#[test]
fn review_stops_cascade() {
    let mut kb = empty_kb();

    // A → B → C
    let a = kb.create_node(axiom_params("A")).unwrap();
    let a_id = a.frontmatter.id.clone();

    let b = kb.create_node(deduction("B", &[&a_id], &a_id)).unwrap();
    let b_id = b.frontmatter.id.clone();

    let c = kb.create_node(deduction("C", &[&b_id], &b_id)).unwrap();
    let c_id = c.frontmatter.id.clone();

    // Edit A → B and C become stale.
    kb.update_node(&a_id, axiom_params("A (edited)")).unwrap();
    assert_eq!(
        kb.get_node(&b_id).unwrap().frontmatter.status,
        Status::Stale
    );
    assert_eq!(
        kb.get_node(&c_id).unwrap().frontmatter.status,
        Status::Stale
    );

    // Review B → B becomes current, C stays stale (review doesn't propagate).
    kb.mark_node_reviewed(&b_id).unwrap();
    assert_eq!(
        kb.get_node(&b_id).unwrap().frontmatter.status,
        Status::Current
    );
    assert!(kb
        .get_node(&b_id)
        .unwrap()
        .frontmatter
        .stale_sources
        .is_empty());
    assert_eq!(
        kb.get_node(&c_id).unwrap().frontmatter.status,
        Status::Stale
    );

}

// ── Edit re-propagates ──────────────────────────────────

#[test]
fn edit_stale_node_re_propagates() {
    let mut kb = empty_kb();

    // A → B → C
    let a = kb.create_node(axiom_params("A")).unwrap();
    let a_id = a.frontmatter.id.clone();

    let b = kb.create_node(deduction("B", &[&a_id], &a_id)).unwrap();
    let b_id = b.frontmatter.id.clone();

    let c = kb.create_node(deduction("C", &[&b_id], &b_id)).unwrap();
    let c_id = c.frontmatter.id.clone();

    // Edit A → B and C stale.
    kb.update_node(&a_id, axiom_params("A (edited)")).unwrap();

    // Now edit B (while it's stale) → B becomes current, C gets a new
    // stale source from B.
    kb.update_node(&b_id, deduction("B (edited)", &[&a_id], &a_id))
        .unwrap();

    assert_eq!(
        kb.get_node(&b_id).unwrap().frontmatter.status,
        Status::Current
    );
    assert!(kb
        .get_node(&b_id)
        .unwrap()
        .frontmatter
        .stale_sources
        .is_empty());

    // C should have two stale sources: A (from the first wave) and B (from
    // the re-propagation).
    let c_node = kb.get_node(&c_id).unwrap();
    assert_eq!(c_node.frontmatter.status, Status::Stale);
    assert_eq!(c_node.frontmatter.stale_sources.len(), 2);
    let source_ids: Vec<&str> = c_node
        .frontmatter
        .stale_sources
        .iter()
        .map(|s| s.node_id.as_str())
        .collect();
    assert!(source_ids.contains(&a_id.as_str()));
    assert!(source_ids.contains(&b_id.as_str()));

}

// ── Axioms are immune ───────────────────────────────────

#[test]
fn axioms_never_become_stale_from_propagation() {
    let mut kb = empty_kb();

    // A(axiom) → B(deduction) depends on A.
    // We also create C(axiom) with an edge from B → C via create_edge
    // (C won't have deps, but B depends on C if we add the edge).
    // Actually, to test this properly: A → B(deduction), but also have
    // C(axiom) that is somehow downstream. Since axioms can't have deps,
    // the only way an axiom is in the dependent chain is through
    // create_edge. But create_edge adds to frontmatter.dependencies,
    // which violates axiom constraints. So axioms can never truly be
    // downstream in the graph.
    //
    // Instead, test that propagation simply skips axioms gracefully:
    // use propagate_staleness directly to verify.
    let a = kb.create_node(axiom_params("A")).unwrap();
    let a_id = a.frontmatter.id.clone();

    let b = kb.create_node(deduction("B", &[&a_id], &a_id)).unwrap();
    let b_id = b.frontmatter.id.clone();

    // Edit A.
    kb.update_node(&a_id, axiom_params("A (edited)")).unwrap();

    // A stays current (axiom, was the edited node).
    assert_eq!(
        kb.get_node(&a_id).unwrap().frontmatter.status,
        Status::Current
    );
    assert!(kb
        .get_node(&a_id)
        .unwrap()
        .frontmatter
        .stale_sources
        .is_empty());

    // B is stale.
    assert_eq!(
        kb.get_node(&b_id).unwrap().frontmatter.status,
        Status::Stale
    );

}

// ── Idempotent propagation ──────────────────────────────

#[test]
fn propagate_same_source_twice_is_idempotent() {
    let mut kb = empty_kb();

    let a = kb.create_node(axiom_params("A")).unwrap();
    let a_id = a.frontmatter.id.clone();

    let b = kb.create_node(deduction("B", &[&a_id], &a_id)).unwrap();
    let b_id = b.frontmatter.id.clone();

    // Edit A twice.
    kb.update_node(&a_id, axiom_params("A (edit 1)")).unwrap();
    kb.update_node(&a_id, axiom_params("A (edit 2)")).unwrap();

    // B should only have one stale_source from A (not two).
    let b_node = kb.get_node(&b_id).unwrap();
    assert_eq!(b_node.frontmatter.status, Status::Stale);
    assert_eq!(b_node.frontmatter.stale_sources.len(), 1);
    assert_eq!(b_node.frontmatter.stale_sources[0].node_id, a_id);

}

// ── Multiple stale sources ──────────────────────────────

#[test]
fn multiple_stale_sources() {
    let mut kb = empty_kb();

    // A → C, B → C
    let a = kb.create_node(axiom_params("A")).unwrap();
    let a_id = a.frontmatter.id.clone();

    let b = kb.create_node(axiom_params("B")).unwrap();
    let b_id = b.frontmatter.id.clone();

    let c = kb
        .create_node(deduction(
            "C",
            &[&a_id, &b_id],
            &format!("{a_id} AND {b_id}"),
        ))
        .unwrap();
    let c_id = c.frontmatter.id.clone();

    // Edit A → C becomes stale with source A.
    kb.update_node(&a_id, axiom_params("A (edited)")).unwrap();
    assert_eq!(
        kb.get_node(&c_id).unwrap().frontmatter.stale_sources.len(),
        1
    );

    // Edit B → C gets a second stale source.
    kb.update_node(&b_id, axiom_params("B (edited)")).unwrap();
    let c_node = kb.get_node(&c_id).unwrap();
    assert_eq!(c_node.frontmatter.stale_sources.len(), 2);
    let source_ids: Vec<&str> = c_node
        .frontmatter
        .stale_sources
        .iter()
        .map(|s| s.node_id.as_str())
        .collect();
    assert!(source_ids.contains(&a_id.as_str()));
    assert!(source_ids.contains(&b_id.as_str()));

}

// ── mark_node_reviewed ──────────────────────────────────

#[test]
fn mark_reviewed_clears_staleness() {
    let mut kb = empty_kb();

    let a = kb.create_node(axiom_params("A")).unwrap();
    let a_id = a.frontmatter.id.clone();

    let b = kb.create_node(deduction("B", &[&a_id], &a_id)).unwrap();
    let b_id = b.frontmatter.id.clone();

    // Make B stale.
    kb.update_node(&a_id, axiom_params("A (edited)")).unwrap();
    assert_eq!(
        kb.get_node(&b_id).unwrap().frontmatter.status,
        Status::Stale
    );

    // Review B.
    let reviewed = kb.mark_node_reviewed(&b_id).unwrap();
    assert_eq!(reviewed.frontmatter.status, Status::Current);
    assert!(reviewed.frontmatter.stale_sources.is_empty());

}

#[test]
fn mark_reviewed_on_current_node_is_noop() {
    let mut kb = empty_kb();

    let a = kb.create_node(axiom_params("A")).unwrap();
    let a_id = a.frontmatter.id.clone();

    // A is already current — reviewing it should still return current.
    let reviewed = kb.mark_node_reviewed(&a_id).unwrap();
    assert_eq!(reviewed.frontmatter.status, Status::Current);
    assert!(reviewed.frontmatter.stale_sources.is_empty());

}

#[test]
fn mark_reviewed_nonexistent_node_errors() {
    let mut kb = empty_kb();

    let err = kb.mark_node_reviewed("n-nonexistent").unwrap_err();
    assert!(err.to_string().contains("not found"));

}

// ── Diamond propagation ─────────────────────────────────

#[test]
fn diamond_graph_propagation() {
    let mut kb = empty_kb();

    // A → B, A → C, B → D, C → D (diamond)
    let a = kb.create_node(axiom_params("A")).unwrap();
    let a_id = a.frontmatter.id.clone();

    let b = kb.create_node(deduction("B", &[&a_id], &a_id)).unwrap();
    let b_id = b.frontmatter.id.clone();

    let c = kb.create_node(deduction("C", &[&a_id], &a_id)).unwrap();
    let c_id = c.frontmatter.id.clone();

    let d = kb
        .create_node(deduction(
            "D",
            &[&b_id, &c_id],
            &format!("{b_id} AND {c_id}"),
        ))
        .unwrap();
    let d_id = d.frontmatter.id.clone();

    // Edit A → B, C, and D all become stale.
    kb.update_node(&a_id, axiom_params("A (edited)")).unwrap();

    assert_eq!(
        kb.get_node(&b_id).unwrap().frontmatter.status,
        Status::Stale
    );
    assert_eq!(
        kb.get_node(&c_id).unwrap().frontmatter.status,
        Status::Stale
    );
    assert_eq!(
        kb.get_node(&d_id).unwrap().frontmatter.status,
        Status::Stale
    );

    // D should have exactly one stale_source: A (not duplicated via B and C).
    let d_node = kb.get_node(&d_id).unwrap();
    assert_eq!(d_node.frontmatter.stale_sources.len(), 1);
    assert_eq!(d_node.frontmatter.stale_sources[0].node_id, a_id);

}

// ── Long chain propagation ──────────────────────────────

#[test]
fn long_chain_propagation() {
    let mut kb = empty_kb();

    // Create a chain: A → B → C → D → E
    let a = kb.create_node(axiom_params("A")).unwrap();
    let a_id = a.frontmatter.id.clone();

    let mut prev_id = a_id.clone();
    let mut chain_ids = vec![a_id.clone()];

    for name in ["B", "C", "D", "E"] {
        let node = kb
            .create_node(deduction(name, &[&prev_id], &prev_id))
            .unwrap();
        let id = node.frontmatter.id.clone();
        chain_ids.push(id.clone());
        prev_id = id;
    }

    // Edit A → all of B, C, D, E become stale.
    kb.update_node(&a_id, axiom_params("A (edited)")).unwrap();

    for id in &chain_ids[1..] {
        assert_eq!(
            kb.get_node(id).unwrap().frontmatter.status,
            Status::Stale,
            "node {id} should be stale"
        );
    }

}

// ── Edit node that has no dependents ─────────────────────

#[test]
fn edit_leaf_node_no_propagation() {
    let mut kb = empty_kb();

    let a = kb.create_node(axiom_params("A")).unwrap();
    let a_id = a.frontmatter.id.clone();

    let b = kb.create_node(deduction("B", &[&a_id], &a_id)).unwrap();
    let b_id = b.frontmatter.id.clone();

    // Edit B (leaf node — no one depends on it).
    kb.update_node(&b_id, deduction("B (edited)", &[&a_id], &a_id))
        .unwrap();

    // B is current (just edited), A is unaffected.
    assert_eq!(
        kb.get_node(&b_id).unwrap().frontmatter.status,
        Status::Current
    );
    assert_eq!(
        kb.get_node(&a_id).unwrap().frontmatter.status,
        Status::Current
    );

}

// ── Review then edit propagates fresh ────────────────────

#[test]
fn review_then_edit_upstream_propagates_fresh() {
    let mut kb = empty_kb();

    let a = kb.create_node(axiom_params("A")).unwrap();
    let a_id = a.frontmatter.id.clone();

    let b = kb.create_node(deduction("B", &[&a_id], &a_id)).unwrap();
    let b_id = b.frontmatter.id.clone();

    // Edit A → B stale.
    kb.update_node(&a_id, axiom_params("A v1")).unwrap();
    assert_eq!(
        kb.get_node(&b_id).unwrap().frontmatter.status,
        Status::Stale
    );

    // Review B → B current.
    kb.mark_node_reviewed(&b_id).unwrap();
    assert_eq!(
        kb.get_node(&b_id).unwrap().frontmatter.status,
        Status::Current
    );

    // Edit A again → B stale again with fresh source.
    kb.update_node(&a_id, axiom_params("A v2")).unwrap();
    let b_node = kb.get_node(&b_id).unwrap();
    assert_eq!(b_node.frontmatter.status, Status::Stale);
    assert_eq!(b_node.frontmatter.stale_sources.len(), 1);
    assert_eq!(b_node.frontmatter.stale_sources[0].node_id, a_id);

}

// ── Exact stamps ────────────────────────────────────────

#[test]
fn propagate_at_stamps_marked_nodes() {
    let mut kb = empty_kb();
    let a_id = kb.create_node(axiom_params("A")).unwrap().frontmatter.id;
    let b_id = kb.create_node(deduction("B", &[&a_id], &a_id)).unwrap().frontmatter.id;
    let c_id = kb.create_node(deduction("C", &[&b_id], &b_id)).unwrap().frontmatter.id;

    let now = "2030-05-06T07:08:09Z".to_string();
    let user = "carol".to_string();
    let mut affected = kb.propagate_staleness_at(&a_id, &now, &user);
    affected.sort();
    let mut expected = vec![b_id.clone(), c_id.clone()];
    expected.sort();
    assert_eq!(affected, expected);

    for id in [&b_id, &c_id] {
        let n = kb.get_node(id).unwrap();
        assert_eq!(n.frontmatter.status, Status::Stale);
        assert_eq!(n.frontmatter.status_updated_at, now);
        assert_eq!(n.frontmatter.status_updated_by, user);
        assert_eq!(n.frontmatter.stale_sources.len(), 1);
        assert_eq!(n.frontmatter.stale_sources[0].node_id, a_id);
        assert_eq!(n.frontmatter.stale_sources[0].changed_at, now);
    }

    // A second pass from the same edit marks nothing.
    let again = kb.propagate_staleness_at(&a_id, &"2031-01-01T00:00:00Z".to_string(), &user);
    assert!(again.is_empty());
    assert_eq!(kb.get_node(&b_id).unwrap().frontmatter.status_updated_at, now);
}

#[test]
fn propagation_from_unknown_node_marks_nothing() {
    let mut kb = empty_kb();
    let a_id = kb.create_node(axiom_params("A")).unwrap().frontmatter.id;
    let _b = kb.create_node(deduction("B", &[&a_id], &a_id)).unwrap();
    let affected = kb.propagate_staleness("n-ffffff");
    assert!(affected.is_empty());
}

#[test]
fn mark_reviewed_at_stamps_and_touches_no_other_node() {
    let mut kb = empty_kb();
    let a_id = kb.create_node(axiom_params("A")).unwrap().frontmatter.id;
    let b_id = kb.create_node(deduction("B", &[&a_id], &a_id)).unwrap().frontmatter.id;
    let c_id = kb.create_node(deduction("C", &[&b_id], &b_id)).unwrap().frontmatter.id;
    kb.update_node(&a_id, axiom_params("A v2")).unwrap();
    let c_before = kb.get_node(&c_id).unwrap().clone();

    let reviewed = kb
        .mark_node_reviewed_at(&b_id, &"2030-01-01T00:00:00Z".to_string(), &"dave".to_string())
        .unwrap();
    assert_eq!(reviewed.frontmatter.status, Status::Current);
    assert_eq!(reviewed.frontmatter.status_updated_at, "2030-01-01T00:00:00Z");
    assert_eq!(reviewed.frontmatter.status_updated_by, "dave");
    assert!(reviewed.frontmatter.stale_sources.is_empty());
    assert_eq!(*kb.get_node(&c_id).unwrap(), c_before);
}

#[test]
fn wave_passes_through_a_node_that_already_records_the_source() {
    let mut kb = empty_kb();
    let a_id = kb.create_node(axiom_params("A")).unwrap().frontmatter.id;
    let b_id = kb.create_node(deduction("B", &[&a_id], &a_id)).unwrap().frontmatter.id;
    let c_id = kb.create_node(deduction("C", &[&b_id], &b_id)).unwrap().frontmatter.id;

    // B and C become stale from A; then C is reviewed, B is not.
    kb.update_node(&a_id, axiom_params("A v1")).unwrap();
    kb.mark_node_reviewed(&c_id).unwrap();
    let b_before = kb.get_node(&b_id).unwrap().clone();
    assert_eq!(kb.get_node(&c_id).unwrap().frontmatter.status, Status::Current);

    // Editing A again reaches C through B.
    let affected = kb.propagate_staleness_at(&a_id, &"2031-01-01T00:00:00Z".to_string(), &"eve".to_string());
    assert_eq!(affected, vec![c_id.clone()]);
    let c = kb.get_node(&c_id).unwrap();
    assert_eq!(c.frontmatter.status, Status::Stale);
    assert_eq!(c.frontmatter.stale_sources.len(), 1);
    assert_eq!(c.frontmatter.stale_sources[0].node_id, a_id);
    // B keeps its single record and its stamp.
    assert_eq!(*kb.get_node(&b_id).unwrap(), b_before);
}

#[test]
fn review_of_a_current_node_changes_nothing() {
    let mut kb = empty_kb();
    let a = kb.create_node(axiom_params("A")).unwrap();
    let reviewed = kb
        .mark_node_reviewed_at(&a.frontmatter.id, &"2099-01-01T00:00:00Z".to_string(), &"zed".to_string())
        .unwrap();
    assert_eq!(reviewed, a);
    assert_eq!(*kb.get_node(&a.frontmatter.id).unwrap(), a);
}

#[test]
fn affected_nodes_come_in_wave_order() {
    let mut kb = empty_kb();
    let a_id = kb.create_node(axiom_params("A")).unwrap().frontmatter.id;
    let b_id = kb.create_node(deduction("B", &[&a_id], &a_id)).unwrap().frontmatter.id;
    let c_id = kb.create_node(deduction("C", &[&b_id], &b_id)).unwrap().frontmatter.id;
    let d_id = kb.create_node(deduction("D", &[&a_id], &a_id)).unwrap().frontmatter.id;

    // B and D are one step from A, C two: nearer first, then node order.
    let affected = kb.propagate_staleness_at(&a_id, &"2030-01-01T00:00:00Z".to_string(), &"eve".to_string());
    assert_eq!(affected, vec![b_id, d_id, c_id]);
}
