//! Responses to node files changed outside the application.
//!
//! These methods update the in-memory knowledge base when a node file is
//! created, modified, or deleted by another program; reading the file and
//! watching the directory is left to the caller.
use vstd::prelude::*;

use super::staleness::{in_wave_order, marked_by, propagated};
use super::{find_node, has_node, index_of, lemma_index_of_unique, lists, KnowledgeBase};
use crate::error::{Error, ErrorSpec};
use crate::model::{Node, NodeId};
use crate::text::{copy_string, texts};

verus! {

/// What kind of external change occurred.
#[derive(Debug, Clone, Copy, PartialEq, Eq)]
pub enum NodeChangeKind {
    /// A new node was created externally.
    Created,
    /// An existing node was modified externally (its content differs).
    Modified,
    /// A node was deleted externally.
    Deleted,
    /// The file matches the in-memory node (the application's own write).
    Unchanged,
}

/// Result of processing an external file event.
#[derive(Debug, Clone)]
pub struct NodeChangeResult {
    /// The ID of the affected node.
    pub node_id: NodeId,
    /// What kind of change was detected.
    pub kind: NodeChangeKind,
    /// Node IDs that were marked stale (only for `Modified`).
    pub stale_affected: Vec<NodeId>,
    /// Node IDs that now have a dangling dependency (only for `Deleted`).
    pub orphaned_dependents: Vec<NodeId>,
}

impl KnowledgeBase {
    /// Takes in a node read from an externally created or modified file,
    /// stamping any staleness it causes at `now` by `username`.
    ///
    /// - a new ID: the node is added, `Created`;
    /// - an ID whose node differs: it is replaced and staleness propagates
    ///   from it, `Modified`, listing the nodes marked stale;
    /// - an ID whose node is identical: nothing changes, `Unchanged`.
    pub fn ingest_external_node_at(&mut self, parsed: Node, now: &String, username: &String) -> (r: NodeChangeResult)
        ensures
            final(self).root_view() == old(self).root_view(),
            final(self).config_view() == old(self).config_view(),
            final(self).duplicates_view() == old(self).duplicates_view(),
            r.node_id@ == parsed@.frontmatter.id,
            r.orphaned_dependents@.len() == 0,
            ({
                let nv = old(self).nodes_view();
                let id = parsed@.frontmatter.id;
                if !has_node(nv, id) {
                    r.kind == NodeChangeKind::Created && r.stale_affected@.len() == 0
                        && final(self).nodes_view() == nv.push(parsed@)
                } else if nv[index_of(nv, id)] == parsed@ {
                    r.kind == NodeChangeKind::Unchanged && r.stale_affected@.len() == 0
                        && final(self).nodes_view() == nv
                } else {
                    let edited = nv.update(index_of(nv, id), parsed@);
                    &&& r.kind == NodeChangeKind::Modified
                    &&& final(self).nodes_view() == propagated(edited, id, now@, username@)
                    &&& texts(r.stale_affected@).no_duplicates()
                    &&& forall|y: Seq<char>| #[trigger]
                        texts(r.stale_affected@).contains(y) <==> marked_by(edited, id, y)
                    &&& in_wave_order(edited, id, texts(r.stale_affected@))
                }
            }),
    {
        proof {
            use_type_invariant(&*self);
        }
        let ghost nv = self.nodes_view();
        let node_id = copy_string(&parsed.frontmatter.id);
        match find_node(&self.nodes, &node_id) {
            Some(i) => {
                proof {
                    lemma_index_of_unique(nv, i as int);
                }
                if self.nodes[i].same_as(&parsed) {
                    return NodeChangeResult {
                        node_id,
                        kind: NodeChangeKind::Unchanged,
                        stale_affected: Vec::new(),
                        orphaned_dependents: Vec::new(),
                    };
                }
                self.insert_node(parsed);
                let stale_affected = self.propagate_staleness_at(node_id.as_str(), now, username);
                NodeChangeResult {
                    node_id,
                    kind: NodeChangeKind::Modified,
                    stale_affected,
                    orphaned_dependents: Vec::new(),
                }
            },
            None => {
                self.insert_node(parsed);
                NodeChangeResult {
                    node_id,
                    kind: NodeChangeKind::Created,
                    stale_affected: Vec::new(),
                    orphaned_dependents: Vec::new(),
                }
            },
        }
    }

    /// Takes in a node read from an externally created or modified file;
    /// staleness it causes is stamped with the current time and user.
    pub fn ingest_external_node(&mut self, parsed: Node) -> (r: NodeChangeResult)
        ensures
            final(self).root_view() == old(self).root_view(),
            final(self).config_view() == old(self).config_view(),
            final(self).duplicates_view() == old(self).duplicates_view(),
            r.node_id@ == parsed@.frontmatter.id,
            r.orphaned_dependents@.len() == 0,
            ({
                let nv = old(self).nodes_view();
                let id = parsed@.frontmatter.id;
                if !has_node(nv, id) {
                    r.kind == NodeChangeKind::Created && r.stale_affected@.len() == 0
                        && final(self).nodes_view() == nv.push(parsed@)
                } else if nv[index_of(nv, id)] == parsed@ {
                    r.kind == NodeChangeKind::Unchanged && r.stale_affected@.len() == 0
                        && final(self).nodes_view() == nv
                } else {
                    let edited = nv.update(index_of(nv, id), parsed@);
                    &&& r.kind == NodeChangeKind::Modified
                    &&& exists|now: Seq<char>, user: Seq<char>|
                        final(self).nodes_view() == #[trigger] propagated(edited, id, now, user)
                    &&& texts(r.stale_affected@).no_duplicates()
                    &&& forall|y: Seq<char>| #[trigger]
                        texts(r.stale_affected@).contains(y) <==> marked_by(edited, id, y)
                    &&& in_wave_order(edited, id, texts(r.stale_affected@))
                }
            }),
    {
        proof {
            use_type_invariant(&*self);
        }
        let now = crate::util::now_iso8601();
        let username = crate::util::os_username();
        self.ingest_external_node_at(parsed, &now, &username)
    }

    /// Removes a node whose file was deleted externally. Unlike
    /// `delete_node` this never refuses: it reports the nodes that now
    /// depend on a missing node.
    pub fn remove_external_node(&mut self, node_id: &str) -> (r: Result<NodeChangeResult, Error>)
        ensures
            final(self).root_view() == old(self).root_view(),
            final(self).config_view() == old(self).config_view(),
            final(self).duplicates_view() == old(self).duplicates_view(),
            match r {
                Ok(c) => {
                    let nv = old(self).nodes_view();
                    &&& has_node(nv, node_id@)
                    &&& final(self).nodes_view() == nv.remove(index_of(nv, node_id@))
                    &&& c.node_id@ == node_id@
                    &&& c.kind == NodeChangeKind::Deleted
                    &&& c.stale_affected@.len() == 0
                    &&& texts(c.orphaned_dependents@).no_duplicates()
                    &&& forall|y: Seq<char>| #[trigger]
                        texts(c.orphaned_dependents@).contains(y) <==> lists(nv, y, node_id@)
                },
                Err(e) => !has_node(old(self).nodes_view(), node_id@) && e@
                    == ErrorSpec::NodeNotFound(node_id@) && final(self).nodes_view() == old(
                    self,
                ).nodes_view(),
            },
    {
        proof {
            use_type_invariant(&*self);
        }
        let ghost nv = self.nodes_view();
        let key = String::from_str(node_id);
        let i = match find_node(&self.nodes, &key) {
            Some(i) => i,
            None => return Err(Error::NodeNotFound(key)),
        };
        proof {
            lemma_index_of_unique(nv, i as int);
        }
        let orphaned_dependents = self.dependents_of(node_id);
        self.remove_at(i);
        Ok(
            NodeChangeResult {
                node_id: key,
                kind: NodeChangeKind::Deleted,
                stale_affected: Vec::new(),
                orphaned_dependents,
            },
        )
    }
}

} // verus!
