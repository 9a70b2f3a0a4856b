//! Targeted reads of single nodes and their neighbourhood.

use crate::model::{NodeId, Refusal, StoreError};
use crate::pages::NodeProjection;
use crate::reads::{lists_children, resolved, root_of, NodeSelector};
use crate::tables::SqliteStore;
use crate::tree::{lookup, unique_ids};
use vstd::prelude::*;

verus! {

impl SqliteStore {
    /// Returns the canonical root.
    pub fn root_projection(&self) -> (result: Result<NodeProjection, StoreError>)
        ensures
            match root_of(self@.nodes) {
                Some(node) => result == Ok::<NodeProjection, StoreError>(node),
                None => result is Err && result->Err_0@ == Refusal::NotFound("root"@),
            },
    {
        self.root()
    }

    /// Resolves one canonical head.
    pub fn resolve_projection(&self, selector: &NodeSelector) -> (result: Result<
        Option<NodeProjection>,
        StoreError,
    >)
        requires
            unique_ids(self@.nodes),
        ensures
            match resolved(self@.nodes, *selector) {
                Ok(node) => result == Ok::<Option<NodeProjection>, StoreError>(node),
                Err(e) => result is Err && result->Err_0@ == e,
            },
    {
        self.resolve(selector)
    }

    /// Returns the selected node's direct parent.
    pub fn parent_projection(&self, id: NodeId) -> (node: Option<NodeProjection>)
        requires
            unique_ids(self@.nodes),
        ensures
            node == match lookup(self@.nodes, id) {
                Some(n) => match n.parent_id {
                    Some(p) => lookup(self@.nodes, p),
                    None => None,
                },
                None => None,
            },
    {
        self.parent(id)
    }

    /// Returns direct children in canonical order.
    pub fn children_projections(&self, id: NodeId) -> (children: Vec<NodeProjection>)
        requires
            unique_ids(self@.nodes),
        ensures
            lists_children(self@.nodes, id, children@),
    {
        self.children(id)
    }

    /// Returns siblings, including the selected node, in canonical order.
    pub fn sibling_projections(&self, id: NodeId) -> (result: Result<
        Vec<NodeProjection>,
        StoreError,
    >)
        requires
            unique_ids(self@.nodes),
        ensures
            match lookup(self@.nodes, id) {
                Some(node) => result is Ok && match node.parent_id {
                    Some(p) => lists_children(self@.nodes, p, result->Ok_0@),
                    None => result->Ok_0@ == seq![node],
                },
                None => result is Err && result->Err_0@ == Refusal::NotFound(id.text()),
            },
    {
        self.siblings(id)
    }
}

} // verus!
