//! Notifications about node files changed outside the application, as the
//! user interface receives them.
use vstd::prelude::*;

use crate::project::watcher::{NodeChangeKind, NodeChangeResult};
use crate::text::{copy_string, copy_strings, texts};

verus! {

/// A node file appeared.
#[derive(Debug, Clone)]
pub struct NodeCreatedEvent {
    pub node_id: String,
}

/// A node file changed; `stale_affected` lists the nodes marked stale.
#[derive(Debug, Clone)]
pub struct NodeModifiedEvent {
    pub node_id: String,
    pub stale_affected: Vec<String>,
}

/// A node file disappeared; `orphaned_dependents` lists the nodes that
/// depended on it.
#[derive(Debug, Clone)]
pub struct NodeDeletedEvent {
    pub node_id: String,
    pub orphaned_dependents: Vec<String>,
}

/// The file watcher failed.
#[derive(Debug, Clone)]
pub struct WatcherErrorEvent {
    pub message: String,
}

/// The notification for one external node change.
#[derive(Debug, Clone)]
pub enum NodeEvent {
    Created(NodeCreatedEvent),
    Modified(NodeModifiedEvent),
    Deleted(NodeDeletedEvent),
}

/// The notification that reports `change`: none for a file that matches
/// the node in memory (the application's own write), otherwise one of the
/// kind of the change, carrying the node's ID and the nodes it affected.
pub fn event_for_change(change: &NodeChangeResult) -> (r: Option<NodeEvent>)
    ensures
        match change.kind {
            NodeChangeKind::Unchanged => r is None,
            NodeChangeKind::Created => r matches Some(NodeEvent::Created(c)) && c.node_id@
                == change.node_id@,
            NodeChangeKind::Modified => r matches Some(NodeEvent::Modified(m)) && m.node_id@
                == change.node_id@ && texts(m.stale_affected@) == texts(change.stale_affected@),
            NodeChangeKind::Deleted => r matches Some(NodeEvent::Deleted(d)) && d.node_id@
                == change.node_id@ && texts(d.orphaned_dependents@) == texts(
                change.orphaned_dependents@,
            ),
        },
{
    match change.kind {
        NodeChangeKind::Unchanged => None,
        NodeChangeKind::Created => Some(
            NodeEvent::Created(NodeCreatedEvent { node_id: copy_string(&change.node_id) }),
        ),
        NodeChangeKind::Modified => Some(
            NodeEvent::Modified(
                NodeModifiedEvent {
                    node_id: copy_string(&change.node_id),
                    stale_affected: copy_strings(&change.stale_affected),
                },
            ),
        ),
        NodeChangeKind::Deleted => Some(
            NodeEvent::Deleted(
                NodeDeletedEvent {
                    node_id: copy_string(&change.node_id),
                    orphaned_dependents: copy_strings(&change.orphaned_dependents),
                },
            ),
        ),
    }
}

} // verus!
