//! The interface through which nodes are read, written and allocated.
use crate::file_store::raw_fetch_from;
use crate::node::{valid_node, Node, NodeIdent, NodeView};
use vstd::prelude::*;

verus! {

/// Why a node could not be read or written.
#[derive(Debug, PartialEq, Eq, Structural, Clone, Copy)]
pub enum NodeStoreError {
    /// The identifier names no stored block.
    InvalidReference,
    /// A block could not be written.
    WriteFailed,
    /// A block does not hold a valid node of the kind its identifier names.
    ReadFailed,
}

/// A store of nodes addressed by identifiers whose sign gives the kind.
pub trait NodeStore {
    /// The store is in a usable state.
    spec fn store_wf(&self) -> bool;

    /// The stored nodes by block index.
    spec fn node_map(&self) -> Map<int, NodeView>;

    /// The fanout of the stored nodes.
    spec fn node_fanout(&self) -> nat;

    /// The number of blocks allocated.
    spec fn allocated(&self) -> int;

    /// Reads the node `ident`: the node its block holds, decoded.
    fn get_node(&mut self, ident: NodeIdent) -> (r: Result<Node, NodeStoreError>)
        requires
            old(self).store_wf(),
        ensures
            final(self).store_wf(),
            final(self).node_map() == old(self).node_map(),
            final(self).node_fanout() == old(self).node_fanout(),
            final(self).allocated() == old(self).allocated(),
            match r {
                Ok(n) => raw_fetch_from(old(self).node_map(), old(self).node_fanout(), ident) == Ok::<
                    NodeView,
                    NodeStoreError,
                >(n@),
                Err(e) => raw_fetch_from(old(self).node_map(), old(self).node_fanout(), ident) == Err::<
                    NodeView,
                    NodeStoreError,
                >(e),
            },
    ;

    /// Allocates the next block for `node` and returns its identifier,
    /// negative for an inner node.
    fn store_node(&mut self, node: Node, leaf: bool) -> (r: Result<NodeIdent, NodeStoreError>)
        requires
            old(self).store_wf(),
            valid_node(node@, old(self).node_fanout(), leaf),
        ensures
            final(self).store_wf(),
            final(self).node_fanout() == old(self).node_fanout(),
            match r {
                Ok(id) => final(self).allocated() == old(self).allocated() + 1 && id == (if leaf {
                    old(self).allocated() + 1
                } else {
                    -(old(self).allocated() + 1)
                }) && final(self).node_map() == old(self).node_map().insert(
                    old(self).allocated() + 1,
                    node@,
                ),
                Err(e) => e == NodeStoreError::WriteFailed && final(self).node_map() == old(
                    self,
                ).node_map() && final(self).allocated() == old(self).allocated(),
            },
    ;
}

} // verus!
