//! A block-addressed blob store: arbitrary-length byte blobs are laid out as
//! balanced trees of fixed-size nodes over a lower block store, with the
//! left-max-data shape invariant that keeps random access a matter of index
//! arithmetic. Around the core sit the node layout and its serialization, a
//! growable buffer for allocation-free framing, the outer config file codec,
//! and a reproducible data generator for exercising it all.

use vstd::prelude::*;

pub mod arith;
pub mod block_id;
pub mod block_store;
pub mod data_fixture;
pub mod data_node;
pub mod data_node_store;
pub mod data_tree;
pub mod data_tree_store;
pub mod growable_data;
pub mod layout;
pub mod num;
pub mod outer_config;
pub mod tree_model;

verus! {

use crate::block_id::BlockId;
use crate::data_node::CorruptNodeReason;

/// Outcome of removing a block or a tree by id.
#[derive(Clone, Copy, Debug, PartialEq, Eq, Structural)]
pub enum RemoveResult {
    SuccessfullyRemoved,
    NotRemovedBecauseItDoesntExist,
}

/// Errors the node and tree layers surface to their callers.
#[derive(Clone, Copy, Debug, PartialEq, Eq, Structural)]
pub enum StoreError {
    /// A loaded block has an invalid header.
    CorruptNode { id: BlockId, reason: CorruptNodeReason },
    /// An offset or length reaches beyond the blob.
    OutOfRange,
    /// An inner node points at a block the store does not hold.
    NodeNotFound { id: BlockId },
}

} // verus!
