use vstd::prelude::*;

use crate::RemoveResult;
use crate::StoreError;
use crate::block_id::BlockId;
use crate::block_store::InMemoryBlockStore;
use crate::data_node::DataInnerNode;
use crate::data_node::DataLeafNode;
use crate::data_node::DataNode;
use crate::data_node::is_inner_bytes;
use crate::data_node::is_leaf_bytes;
use crate::data_node::serialize_inner_node;
use crate::data_node::serialize_leaf_node_optimized;
use crate::data_node::spec_child_id;
use crate::data_node::spec_leaf_data;
use crate::growable_data::GrowableData;
use crate::layout::MAX_DEPTH;
use crate::layout::NODE_HEADER_SIZE;
use crate::layout::NodeLayout;
use crate::layout::spec_depth;

verus! {

/// Every stored block has the layout's size, and a block whose header reads
/// as a node keeps the write contract of its kind: a zero in the unused
/// header byte, and for a leaf zeroes after its stored bytes. The node layer
/// writes only such blocks and relies on finding only such blocks.
pub open spec fn store_blocks_ok(m: Map<u128, Seq<u8>>, layout: NodeLayout) -> bool {
    forall|id: u128| #[trigger] m.dom().contains(id) ==> {
        &&& m[id].len() == layout.block_size_bytes
        &&& (is_leaf_header(layout, m[id]) ==> (m[id][2] == 0 && forall|i: int|
            NODE_HEADER_SIZE + crate::layout::spec_size_field(m[id]) <= i < m[id].len()
                ==> m[id][i] == 0))
        &&& (is_inner_header(layout, m[id]) ==> m[id][2] == 0)
    }
}

/// The header fields alone read as a valid leaf.
pub open spec fn is_leaf_header(layout: NodeLayout, b: Seq<u8>) -> bool {
    &&& crate::layout::spec_format_version(b) == crate::layout::FORMAT_VERSION_HEADER
    &&& spec_depth(b) == 0
    &&& crate::layout::spec_size_field(b) <= layout.spec_max_bytes_per_leaf()
}

/// The header fields alone read as a valid inner node.
pub open spec fn is_inner_header(layout: NodeLayout, b: Seq<u8>) -> bool {
    &&& crate::layout::spec_format_version(b) == crate::layout::FORMAT_VERSION_HEADER
    &&& 1 <= spec_depth(b) <= crate::layout::MAX_DEPTH
    &&& 1 <= crate::layout::spec_size_field(b) <= layout.spec_max_children_per_inner_node()
}

/// The block's bytes form a valid node of either kind.
pub open spec fn is_node_bytes(layout: NodeLayout, b: Seq<u8>) -> bool {
    is_leaf_bytes(layout, b) || is_inner_bytes(layout, b)
}

/// Loads, creates, overwrites and removes typed nodes by block id, one block
/// per node, atop the block store.
pub struct DataNodeStore {
    block_store: InMemoryBlockStore,
    layout: NodeLayout,
}

impl View for DataNodeStore {
    type V = Map<u128, Seq<u8>>;

    /// The stored blocks, as a map from id to contents.
    closed spec fn view(&self) -> Map<u128, Seq<u8>> {
        self.block_store@
    }
}

impl DataNodeStore {
    pub closed spec fn wf(&self) -> bool {
        &&& self.block_store.wf()
        &&& self.layout.valid()
        &&& store_blocks_ok(self.block_store@, self.layout)
    }

    pub closed spec fn spec_layout(&self) -> NodeLayout {
        self.layout
    }

    /// Builds the node layer atop a block store whose blocks, if any, were
    /// written by this layer under the same block size. Refuses a block size
    /// too small for the header and two child ids.
    pub fn new(block_store: InMemoryBlockStore, block_size_bytes: u32) -> (r: Result<
        DataNodeStore,
        InMemoryBlockStore,
    >)
        requires
            block_store.wf(),
            store_blocks_ok(block_store@, (NodeLayout { block_size_bytes })),
        ensures
            r is Ok <==> (NodeLayout { block_size_bytes }).valid(),
            r matches Ok(s) ==> {
                &&& s.wf()
                &&& s@ == block_store@
                &&& s.spec_layout() == (NodeLayout { block_size_bytes })
            },
            r matches Err(b) ==> b == block_store,
    {
        let layout = NodeLayout { block_size_bytes };
        if block_size_bytes < 40 {
            return Err(block_store);
        }
        Ok(DataNodeStore { block_store, layout })
    }

    /// A well-formed store's layout is valid.
    pub proof fn lemma_layout_valid(&self)
        requires
            self.wf(),
        ensures
            self.spec_layout().valid(),
    {
    }

    pub fn layout(&self) -> (r: &NodeLayout)
        ensures
            r == self.spec_layout(),
    {
        &self.layout
    }

    /// Loads the node stored under `id`: `None` if the store holds no such
    /// block, the parsed node if its header is valid, and a corrupt-node
    /// error otherwise.
    pub fn load(&self, id: BlockId) -> (r: Result<Option<DataNode>, StoreError>)
        requires
            self.wf(),
        ensures
            r matches Ok(opt) ==> (opt is Some <==> self@.dom().contains(id.value)
                && is_node_bytes(self.spec_layout(), self@[id.value])),
            r matches Ok(Some(n)) ==> {
                &&& n.wf()
                &&& n.spec_block_id() == id
                &&& node_block(&n) == self@[id.value]
            },
            (r matches Ok(None)) <==> !self@.dom().contains(id.value),
            r is Err <==> (self@.dom().contains(id.value) && !is_node_bytes(
                self.spec_layout(),
                self@[id.value],
            )),
    {
        let block = match self.block_store.load(&id) {
            Some(b) => b,
            None => {
                return Ok(None);
            },
        };
        if block[3] == 0 {
            match DataLeafNode::new(id, block, &self.layout) {
                Ok(leaf) => Ok(Some(leaf.upcast())),
                Err(reason) => Err(StoreError::CorruptNode { id, reason }),
            }
        } else {
            match DataInnerNode::new(id, block, &self.layout) {
                Ok(inner) => Ok(Some(inner.upcast())),
                Err(reason) => Err(StoreError::CorruptNode { id, reason }),
            }
        }
    }

    /// Serializes `data` as a full leaf block. `data` may be shorter than the
    /// leaf capacity; the rest of the block is zero.
    fn build_leaf_block(&self, data: &Vec<u8>) -> (r: Vec<u8>)
        requires
            self.wf(),
            data@.len() <= self.spec_layout().spec_max_bytes_per_leaf(),
        ensures
            r@.len() == self.spec_layout().block_size_bytes,
            is_leaf_bytes(self.spec_layout(), r@),
            crate::layout::spec_size_field(r@) == data@.len(),
            spec_leaf_data(r@) == data@,
    {
        let mbl = self.layout.max_bytes_per_leaf() as usize;
        let mut payload: Vec<u8> = Vec::new();
        payload.resize(self.layout.block_size_bytes as usize, 0u8);
        let buffer = GrowableData::from_raw(payload).into_subregion(NODE_HEADER_SIZE, 0);
        let mut buffer = buffer;
        let n = data.len();
        let mut i: usize = 0;
        while i < n
            invariant
                buffer.wf(),
                0 <= i <= n,
                n == data@.len(),
                n <= buffer@.len(),
                buffer@.len() == mbl,
                mbl == self.spec_layout().spec_max_bytes_per_leaf(),
                buffer.spec_prefix() == NODE_HEADER_SIZE,
                buffer.spec_suffix() == 0,
                forall|k: int| 0 <= k < i ==> buffer@[k] == data@[k],
                forall|k: int| i <= k < buffer@.len() ==> buffer@[k] == 0,
            decreases n - i,
        {
            buffer.set(i, data[i]);
            i = i + 1;
        }
        let block = serialize_leaf_node_optimized(buffer, n as u32, &self.layout);
        proof {
            assert(spec_leaf_data(block@) =~= data@);
        }
        block
    }

    /// Creates a leaf node with the given bytes under a fresh id.
    pub fn create_new_leaf_node(&mut self, data: &Vec<u8>) -> (r: DataLeafNode)
        requires
            old(self).wf(),
            data@.len() <= old(self).spec_layout().spec_max_bytes_per_leaf(),
        ensures
            final(self).wf(),
            final(self).spec_layout() == old(self).spec_layout(),
            r.wf(),
            r.spec_data() == data@,
            r.spec_num_bytes() == data@.len(),
            !old(self)@.dom().contains(r.spec_block_id().value),
            final(self)@ == old(self)@.insert(r.spec_block_id().value, r.spec_block()),
            is_leaf_bytes(final(self).spec_layout(), r.spec_block()),
    {
        let block = self.build_leaf_block(data);
        let block_copy = vstd::slice::slice_to_vec(block.as_slice());
        let id = self.block_store.create(block);
        let r = DataLeafNode { block_id: id, block: block_copy };
        r
    }

    /// Creates a leaf node with the given bytes under the caller-chosen id;
    /// refuses an id already in use.
    pub fn try_create_new_leaf_node(&mut self, id: BlockId, data: &Vec<u8>) -> (r: Option<
        DataLeafNode,
    >)
        requires
            old(self).wf(),
            data@.len() <= old(self).spec_layout().spec_max_bytes_per_leaf(),
        ensures
            final(self).wf(),
            final(self).spec_layout() == old(self).spec_layout(),
            r is Some <==> !old(self)@.dom().contains(id.value),
            r matches Some(n) ==> {
                &&& n.wf()
                &&& n.spec_block_id() == id
                &&& n.spec_data() == data@
                &&& final(self)@ == old(self)@.insert(id.value, n.spec_block())
                &&& is_leaf_bytes(final(self).spec_layout(), n.spec_block())
            },
            r is None ==> final(self)@ == old(self)@,
    {
        let block = self.build_leaf_block(data);
        let block_copy = vstd::slice::slice_to_vec(block.as_slice());
        if self.block_store.try_create(&id, block) {
            Some(DataLeafNode { block_id: id, block: block_copy })
        } else {
            None
        }
    }

    /// Creates an inner node under a fresh id, holding the given children.
    /// The children must already be stored, one level below the new node.
    pub fn create_new_inner_node(&mut self, depth: u8, children: &Vec<BlockId>) -> (r:
        DataInnerNode)
        requires
            old(self).wf(),
            1 <= depth <= MAX_DEPTH,
            1 <= children@.len() <= old(self).spec_layout().spec_max_children_per_inner_node(),
        ensures
            final(self).wf(),
            final(self).spec_layout() == old(self).spec_layout(),
            r.wf(),
            r.spec_depth() == depth,
            r.spec_num_children() == children@.len(),
            forall|i: int| 0 <= i < children@.len() ==> r.spec_child(i) == children@[i].value,
            !old(self)@.dom().contains(r.spec_block_id().value),
            final(self)@ == old(self)@.insert(r.spec_block_id().value, r.spec_block()),
            is_inner_bytes(final(self).spec_layout(), r.spec_block()),
    {
        let block = serialize_inner_node(depth, children, &self.layout);
        let block_copy = vstd::slice::slice_to_vec(block.as_slice());
        let id = self.block_store.create(block);
        DataInnerNode { block_id: id, block: block_copy }
    }

    /// Replaces the block under `id` with a leaf holding the given bytes.
    pub fn overwrite_leaf(&mut self, id: BlockId, data: &Vec<u8>)
        requires
            old(self).wf(),
            data@.len() <= old(self).spec_layout().spec_max_bytes_per_leaf(),
        ensures
            final(self).wf(),
            final(self).spec_layout() == old(self).spec_layout(),
            final(self)@.dom().contains(id.value),
            final(self)@ == old(self)@.insert(id.value, final(self)@[id.value]),
            is_leaf_bytes(final(self).spec_layout(), final(self)@[id.value]),
            spec_leaf_data(final(self)@[id.value]) == data@,
            crate::layout::spec_size_field(final(self)@[id.value]) == data@.len(),
    {
        let block = self.build_leaf_block(data);
        self.block_store.store(&id, block);
    }

    /// Replaces the block under `id` with an inner node holding the given
    /// children at the given depth.
    pub fn overwrite_inner(&mut self, id: BlockId, depth: u8, children: &Vec<BlockId>)
        requires
            old(self).wf(),
            1 <= depth <= MAX_DEPTH,
            1 <= children@.len() <= old(self).spec_layout().spec_max_children_per_inner_node(),
        ensures
            final(self).wf(),
            final(self).spec_layout() == old(self).spec_layout(),
            final(self)@.dom().contains(id.value),
            final(self)@ == old(self)@.insert(id.value, final(self)@[id.value]),
            is_inner_bytes(final(self).spec_layout(), final(self)@[id.value]),
            spec_depth(final(self)@[id.value]) == depth,
            crate::layout::spec_size_field(final(self)@[id.value]) == children@.len(),
            forall|i: int| 0 <= i < children@.len() ==> spec_child_id(final(self)@[id.value], i)
                == children@[i].value,
    {
        let block = serialize_inner_node(depth, children, &self.layout);
        self.block_store.store(&id, block);
    }

    /// Stores an arbitrary already-valid block under `id`. Used when a node's
    /// contents move to another id, as when the root is lifted or collapsed.
    pub fn overwrite_raw(&mut self, id: BlockId, block: Vec<u8>)
        requires
            old(self).wf(),
            block@.len() == old(self).spec_layout().block_size_bytes,
            is_node_bytes(old(self).spec_layout(), block@),
        ensures
            final(self).wf(),
            final(self).spec_layout() == old(self).spec_layout(),
            final(self)@ == old(self)@.insert(id.value, block@),
    {
        self.block_store.store(&id, block);
    }

    /// Stores an arbitrary already-valid block under a fresh id.
    pub fn create_raw(&mut self, block: Vec<u8>) -> (r: BlockId)
        requires
            old(self).wf(),
            block@.len() == old(self).spec_layout().block_size_bytes,
            is_node_bytes(old(self).spec_layout(), block@),
        ensures
            final(self).wf(),
            final(self).spec_layout() == old(self).spec_layout(),
            !old(self)@.dom().contains(r.value),
            final(self)@ == old(self)@.insert(r.value, block@),
    {
        self.block_store.create(block)
    }

    /// Removes the block under `id`, saying whether the store held one.
    pub fn remove(&mut self, id: BlockId) -> (r: RemoveResult)
        requires
            old(self).wf(),
        ensures
            final(self).wf(),
            final(self).spec_layout() == old(self).spec_layout(),
            final(self)@ == old(self)@.remove(id.value),
            r == RemoveResult::SuccessfullyRemoved <==> old(self)@.dom().contains(id.value),
    {
        self.block_store.remove(&id)
    }

    /// Removes the node's block, consuming the node.
    pub fn remove_by_node(&mut self, node: DataNode) -> (r: RemoveResult)
        requires
            old(self).wf(),
        ensures
            final(self).wf(),
            final(self).spec_layout() == old(self).spec_layout(),
            final(self)@ == old(self)@.remove(node.spec_block_id().value),
            r == RemoveResult::SuccessfullyRemoved <==> old(self)@.dom().contains(
                node.spec_block_id().value,
            ),
    {
        let id = *node.block_id();
        self.block_store.remove(&id)
    }

    /// How many nodes the store holds.
    pub fn num_nodes(&self) -> (r: u64)
        requires
            self.wf(),
        ensures
            r == self@.dom().len(),
    {
        self.block_store.num_blocks()
    }

    /// How many more blocks fit into the store's free space.
    pub fn estimate_space_for_num_blocks_left(&self) -> (r: u64)
        requires
            self.wf(),
        ensures
            r == u64::MAX as nat / self.spec_layout().block_size_bytes as nat,
    {
        self.block_store.estimate_num_free_bytes() / (self.layout.block_size_bytes as u64)
    }

    /// How many blob bytes each block contributes: one leaf's capacity.
    pub fn virtual_block_size_bytes(&self) -> (r: u32)
        requires
            self.wf(),
        ensures
            r == self.spec_layout().spec_max_bytes_per_leaf(),
    {
        let physical = self.block_store.block_size_from_physical_block_size(
            self.layout.block_size_bytes,
        );
        (NodeLayout { block_size_bytes: physical }).max_bytes_per_leaf()
    }

    /// The ids of all stored nodes, each exactly once.
    pub fn all_nodes(&self) -> (r: Vec<BlockId>)
        requires
            self.wf(),
        ensures
            r@.len() == self@.dom().len(),
            forall|k: int| 0 <= k < r@.len() ==> self@.dom().contains(#[trigger] r@[k].value),
            forall|id: u128| #[trigger] self@.dom().contains(id) ==> exists|k: int|
                0 <= k < r@.len() && r@[k].value == id,
            forall|j: int, k: int| 0 <= j < k < r@.len() ==> r@[j].value != r@[k].value,
    {
        self.block_store.all_block_ids()
    }
}

/// The full block bytes of a node, whichever kind it is.
pub open spec fn node_block(n: &DataNode) -> Seq<u8> {
    match n {
        DataNode::Leaf(l) => l.spec_block(),
        DataNode::Inner(i) => i.spec_block(),
    }
}

/// The node store holds finitely many nodes, no more than fit in memory.
pub proof fn lemma_node_store_dom_bounded(s: &DataNodeStore)
    requires
        s.wf(),
    ensures
        s@.dom().finite(),
        s@.dom().len() <= usize::MAX,
{
    crate::block_store::lemma_store_dom_bounded(&s.block_store);
}

} // verus!
