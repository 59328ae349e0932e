use vstd::prelude::*;

use crate::block_id::BlockId;
use crate::block_id::spec_id_value;
use crate::growable_data::GrowableData;
use crate::layout::BLOCK_ID_SIZE;
use crate::layout::FORMAT_VERSION_HEADER;
use crate::layout::MAX_DEPTH;
use crate::layout::NODE_HEADER_SIZE;
use crate::layout::NodeLayout;
use crate::layout::read_u16_be;
use crate::layout::read_u32_le;
use crate::layout::spec_depth;
use crate::layout::spec_format_version;
use crate::layout::spec_size_field;
use crate::layout::write_node_header;
use crate::layout::write_u32_le;

verus! {

/// Why a loaded block could not be accepted as a node.
#[derive(Clone, Copy, Debug, PartialEq, Eq, Structural)]
pub enum CorruptNodeReason {
    BadFormatVersion,
    SizeTooLarge,
    DepthTooLarge,
    BadNumChildren,
}

/// The block's bytes form a valid leaf node: current format version, a zero
/// for the unused header byte, depth zero, a stored size within the leaf
/// capacity, and zeroes after the stored bytes.
pub open spec fn is_leaf_bytes(layout: NodeLayout, b: Seq<u8>) -> bool {
    &&& b.len() == layout.block_size_bytes
    &&& spec_format_version(b) == FORMAT_VERSION_HEADER
    &&& b[2] == 0
    &&& spec_depth(b) == 0
    &&& spec_size_field(b) <= layout.spec_max_bytes_per_leaf()
    &&& forall|i: int| NODE_HEADER_SIZE + spec_size_field(b) <= i < b.len() ==> b[i] == 0
}

/// The stored bytes of a leaf block: the first `size` bytes of its payload.
pub open spec fn spec_leaf_data(b: Seq<u8>) -> Seq<u8> {
    b.subrange(NODE_HEADER_SIZE as int, NODE_HEADER_SIZE + spec_size_field(b))
}

/// The block's bytes form a valid inner node: current format version, a zero
/// for the unused header byte, a depth between one and the cap, and between
/// one and the fanout many children. Payload bytes past the last child are
/// ignored on read.
pub open spec fn is_inner_bytes(layout: NodeLayout, b: Seq<u8>) -> bool {
    &&& b.len() == layout.block_size_bytes
    &&& spec_format_version(b) == FORMAT_VERSION_HEADER
    &&& b[2] == 0
    &&& 1 <= spec_depth(b) <= MAX_DEPTH
    &&& 1 <= spec_size_field(b) <= layout.spec_max_children_per_inner_node()
}

/// The id of child `i` of an inner block, read from its payload.
pub open spec fn spec_child_id(b: Seq<u8>, i: int) -> u128 {
    spec_id_value(
        b.subrange(
            NODE_HEADER_SIZE + i * BLOCK_ID_SIZE,
            NODE_HEADER_SIZE + i * BLOCK_ID_SIZE + BLOCK_ID_SIZE,
        ),
    ) as u128
}

/// A depth-zero node holding blob bytes: its block id and the full bytes of
/// its block.
pub struct DataLeafNode {
    pub block_id: BlockId,
    pub block: Vec<u8>,
}

impl DataLeafNode {
    /// The layout the block was written under, recovered from its size.
    pub open spec fn spec_layout(&self) -> NodeLayout {
        NodeLayout { block_size_bytes: self.block@.len() as u32 }
    }

    pub open spec fn wf(&self) -> bool {
        &&& self.block@.len() <= u32::MAX
        &&& self.spec_layout().valid()
        &&& is_leaf_bytes(self.spec_layout(), self.block@)
    }

    pub open spec fn spec_block_id(&self) -> BlockId {
        self.block_id
    }

    /// The full bytes of the block, header included.
    pub open spec fn spec_block(&self) -> Seq<u8> {
        self.block@
    }

    pub open spec fn spec_num_bytes(&self) -> nat {
        spec_size_field(self.block@)
    }

    /// The stored bytes of the leaf.
    pub open spec fn spec_data(&self) -> Seq<u8> {
        spec_leaf_data(self.block@)
    }

    /// Accepts an already-loaded block as a leaf node, after checking the
    /// format version and the stored size. The caller has already dispatched
    /// on the depth field, and guarantees zeroes after the stored bytes.
    pub fn new(block_id: BlockId, block: Vec<u8>, layout: &NodeLayout) -> (r: Result<
        DataLeafNode,
        CorruptNodeReason,
    >)
        requires
            layout.valid(),
            block@.len() == layout.block_size_bytes,
            spec_depth(block@) == 0,
            (spec_format_version(block@) == FORMAT_VERSION_HEADER && spec_size_field(block@)
                <= layout.spec_max_bytes_per_leaf()) ==> (block@[2] == 0 && forall|i: int|
                NODE_HEADER_SIZE + spec_size_field(block@) <= i < block@.len() ==> block@[i] == 0),
        ensures
            r is Ok <==> (spec_format_version(block@) == FORMAT_VERSION_HEADER && spec_size_field(
                block@,
            ) <= layout.spec_max_bytes_per_leaf()),
            r matches Ok(n) ==> {
                &&& n.wf()
                &&& n.spec_block_id() == block_id
                &&& n.spec_block() == block@
            },
            r matches Err(e) ==> (e == CorruptNodeReason::BadFormatVersion || e
                == CorruptNodeReason::SizeTooLarge),
    {
        if read_u16_be(&block, 0) != FORMAT_VERSION_HEADER {
            return Err(CorruptNodeReason::BadFormatVersion);
        }
        let size = read_u32_le(&block, 4);
        if size > layout.max_bytes_per_leaf() {
            return Err(CorruptNodeReason::SizeTooLarge);
        }
        Ok(DataLeafNode { block_id, block })
    }

    pub fn block_id(&self) -> (r: &BlockId)
        ensures
            r == self.spec_block_id(),
    {
        &self.block_id
    }

    /// The full bytes of the block, header included.
    pub fn raw_blockdata(&self) -> (r: &Vec<u8>)
        ensures
            r@ == self.spec_block(),
    {
        &self.block
    }

    /// How many bytes the leaf currently stores.
    pub fn num_bytes(&self) -> (r: u32)
        requires
            self.wf(),
        ensures
            r == self.spec_num_bytes(),
    {
        read_u32_le(&self.block, 4)
    }

    /// The leaf capacity, recovered from the block's size.
    pub fn max_bytes_per_leaf(&self) -> (r: u32)
        requires
            self.wf(),
        ensures
            r == self.spec_layout().spec_max_bytes_per_leaf(),
    {
        let layout = NodeLayout { block_size_bytes: self.block.len() as u32 };
        layout.max_bytes_per_leaf()
    }

    /// Changes the stored size. Shrinking zeroes the freed bytes before the
    /// size field is updated, so a later grow reveals zeroes; growing reveals
    /// bytes that are zero already by the leaf invariant.
    pub fn resize(&mut self, new_num_bytes: u32)
        requires
            old(self).wf(),
            new_num_bytes <= old(self).spec_layout().spec_max_bytes_per_leaf(),
        ensures
            final(self).wf(),
            final(self).spec_block_id() == old(self).spec_block_id(),
            final(self).spec_layout() == old(self).spec_layout(),
            final(self).spec_num_bytes() == new_num_bytes,
            final(self).spec_data() == if new_num_bytes <= old(self).spec_num_bytes() {
                old(self).spec_data().subrange(0, new_num_bytes as int)
            } else {
                old(self).spec_data() + Seq::new(
                    (new_num_bytes - old(self).spec_num_bytes()) as nat,
                    |i: int| 0u8,
                )
            },
    {
        let old_num_bytes = read_u32_le(&self.block, 4);
        if new_num_bytes < old_num_bytes {
            let mut i = (NODE_HEADER_SIZE as u32) + new_num_bytes;
            let end = (NODE_HEADER_SIZE as u32) + old_num_bytes;
            while i < end
                invariant
                    old(self).wf(),
                    NODE_HEADER_SIZE + new_num_bytes <= i <= end,
                    end == NODE_HEADER_SIZE + old_num_bytes,
                    old_num_bytes == old(self).spec_num_bytes(),
                    end <= self.block@.len(),
                    self.block_id == old(self).block_id,
                    self.block@.len() == old(self).block@.len(),
                    forall|k: int|
                        0 <= k < NODE_HEADER_SIZE + new_num_bytes ==> self.block@[k] == old(
                            self,
                        ).block@[k],
                    forall|k: int| i <= k < self.block@.len() ==> self.block@[k] == old(
                        self,
                    ).block@[k],
                    forall|k: int| NODE_HEADER_SIZE + new_num_bytes <= k < i ==> self.block@[k]
                        == 0,
                decreases end - i,
            {
                self.block[i as usize] = 0u8;
                proof {
                    assert(forall|k: int|
                        NODE_HEADER_SIZE + new_num_bytes <= k <= i ==> self.block@[k] == 0);
                }
                i = i + 1;
            }
        }
        write_u32_le(&mut self.block, 4, new_num_bytes);
        proof {
            if new_num_bytes <= old(self).spec_num_bytes() {
                assert(self.spec_data() =~= old(self).spec_data().subrange(
                    0,
                    new_num_bytes as int,
                ));
            } else {
                assert(self.spec_data() =~= old(self).spec_data() + Seq::new(
                    (new_num_bytes - old(self).spec_num_bytes()) as nat,
                    |i: int| 0u8,
                ));
            }
        }
    }

    /// The stored bytes of the leaf.
    pub fn data(&self) -> (r: &[u8])
        requires
            self.wf(),
        ensures
            r@ == self.spec_data(),
    {
        let size = read_u32_le(&self.block, 4);
        vstd::slice::slice_subrange(
            self.block.as_slice(),
            NODE_HEADER_SIZE,
            NODE_HEADER_SIZE + size as usize,
        )
    }

    /// Overwrites the stored bytes at `[offset, offset + source.len())`.
    pub fn write_at(&mut self, offset: usize, source: &[u8])
        requires
            old(self).wf(),
            offset + source@.len() <= old(self).spec_num_bytes(),
        ensures
            final(self).wf(),
            final(self).spec_block_id() == old(self).spec_block_id(),
            final(self).spec_layout() == old(self).spec_layout(),
            final(self).spec_num_bytes() == old(self).spec_num_bytes(),
            final(self).spec_data().len() == old(self).spec_data().len(),
            forall|k: int|
                0 <= k < old(self).spec_data().len() ==> final(self).spec_data()[k] == if offset
                    <= k < offset + source@.len() {
                    source@[k - offset]
                } else {
                    old(self).spec_data()[k]
                },
    {
        let n = source.len();
        let mut j: usize = 0;
        while j < n
            invariant
                old(self).wf(),
                0 <= j <= n,
                n == source@.len(),
                offset + n <= old(self).spec_num_bytes(),
                self.block_id == old(self).block_id,
                self.block@.len() == old(self).block@.len(),
                forall|k: int|
                    0 <= k < self.block@.len() && !(NODE_HEADER_SIZE + offset <= k
                        < NODE_HEADER_SIZE + offset + j) ==> self.block@[k] == old(
                        self,
                    ).block@[k],
                forall|k: int|
                    NODE_HEADER_SIZE + offset <= k < NODE_HEADER_SIZE + offset + j
                        ==> self.block@[k] == source@[k - NODE_HEADER_SIZE - offset],
            decreases n - j,
        {
            let idx = NODE_HEADER_SIZE + offset + j;
            self.block[idx] = source[j];
            j = j + 1;
        }
        proof {
            assert(spec_size_field(self.block@) == spec_size_field(old(self).block@));
            assert(forall|k: int|
                0 <= k < old(self).spec_data().len() ==> self.spec_data()[k] == if offset <= k
                    < offset + source@.len() {
                    source@[k - offset]
                } else {
                    old(self).spec_data()[k]
                });
        }
    }
}

/// Serializes a leaf node in place: the payload arrives as a buffer with a
/// header-sized prefix reserve, is grown forward over that reserve, and the
/// header is written into the revealed bytes, so the payload is never copied.
/// Bytes after `num_bytes` must already be zero.
pub fn serialize_leaf_node_optimized(data: GrowableData, num_bytes: u32, layout: &NodeLayout) -> (r:
    Vec<u8>)
    requires
        layout.valid(),
        data.wf(),
        data@.len() == layout.spec_max_bytes_per_leaf(),
        data.spec_prefix() >= NODE_HEADER_SIZE,
        num_bytes <= layout.spec_max_bytes_per_leaf(),
        forall|i: int| num_bytes <= i < data@.len() ==> data@[i] == 0,
    ensures
        r@.len() == layout.block_size_bytes,
        is_leaf_bytes(*layout, r@),
        spec_size_field(r@) == num_bytes,
        r@.subrange(NODE_HEADER_SIZE as int, r@.len() as int) == data@,
{
    let ghost payload = data@;
    let grown = data.grow_region(NODE_HEADER_SIZE, 0);
    let mut block = grown.extract();
    write_node_header(&mut block, 0, num_bytes);
    proof {
        assert(block@.subrange(NODE_HEADER_SIZE as int, block@.len() as int) =~= payload);
        assert(forall|i: int|
            NODE_HEADER_SIZE + num_bytes <= i < block@.len() ==> block@[i] == payload[i
                - NODE_HEADER_SIZE] && block@[i] == 0);
    }
    block
}

/// A positive-depth node holding child block ids: its block id and the full
/// bytes of its block.
pub struct DataInnerNode {
    pub block_id: BlockId,
    pub block: Vec<u8>,
}

impl DataInnerNode {
    /// The layout the block was written under, recovered from its size.
    pub open spec fn spec_layout(&self) -> NodeLayout {
        NodeLayout { block_size_bytes: self.block@.len() as u32 }
    }

    pub open spec fn wf(&self) -> bool {
        &&& self.block@.len() <= u32::MAX
        &&& self.spec_layout().valid()
        &&& is_inner_bytes(self.spec_layout(), self.block@)
    }

    pub open spec fn spec_block_id(&self) -> BlockId {
        self.block_id
    }

    /// The full bytes of the block, header included.
    pub open spec fn spec_block(&self) -> Seq<u8> {
        self.block@
    }

    pub open spec fn spec_depth(&self) -> u8 {
        spec_depth(self.block@)
    }

    pub open spec fn spec_num_children(&self) -> nat {
        spec_size_field(self.block@)
    }

    /// The id of child `i`.
    pub open spec fn spec_child(&self, i: int) -> u128 {
        spec_child_id(self.block@, i)
    }

    /// Accepts an already-loaded block as an inner node, after checking the
    /// format version, the depth cap and the child count. The caller has
    /// already dispatched on the depth field.
    pub fn new(block_id: BlockId, block: Vec<u8>, layout: &NodeLayout) -> (r: Result<
        DataInnerNode,
        CorruptNodeReason,
    >)
        requires
            layout.valid(),
            block@.len() == layout.block_size_bytes,
            1 <= spec_depth(block@),
            (spec_format_version(block@) == FORMAT_VERSION_HEADER && spec_depth(block@)
                <= MAX_DEPTH && 1 <= spec_size_field(block@)
                <= layout.spec_max_children_per_inner_node()) ==> block@[2] == 0,
        ensures
            r is Ok <==> (spec_format_version(block@) == FORMAT_VERSION_HEADER && spec_depth(
                block@,
            ) <= MAX_DEPTH && 1 <= spec_size_field(block@)
                <= layout.spec_max_children_per_inner_node()),
            r matches Ok(n) ==> {
                &&& n.wf()
                &&& n.spec_block_id() == block_id
                &&& n.spec_block() == block@
            },
            r matches Err(e) ==> (e == CorruptNodeReason::BadFormatVersion || e
                == CorruptNodeReason::DepthTooLarge || e == CorruptNodeReason::BadNumChildren),
    {
        if read_u16_be(&block, 0) != FORMAT_VERSION_HEADER {
            return Err(CorruptNodeReason::BadFormatVersion);
        }
        if block[3] > MAX_DEPTH {
            return Err(CorruptNodeReason::DepthTooLarge);
        }
        let num_children = read_u32_le(&block, 4);
        if num_children < 1 || num_children > layout.max_children_per_inner_node() {
            return Err(CorruptNodeReason::BadNumChildren);
        }
        Ok(DataInnerNode { block_id, block })
    }

    pub fn block_id(&self) -> (r: &BlockId)
        ensures
            r == self.spec_block_id(),
    {
        &self.block_id
    }

    /// The full bytes of the block, header included.
    pub fn raw_blockdata(&self) -> (r: &Vec<u8>)
        ensures
            r@ == self.spec_block(),
    {
        &self.block
    }

    pub fn depth(&self) -> (r: u8)
        requires
            self.wf(),
        ensures
            r == self.spec_depth(),
    {
        self.block[3]
    }

    pub fn num_children(&self) -> (r: u32)
        requires
            self.wf(),
        ensures
            r == self.spec_num_children(),
            r >= 1,
    {
        read_u32_le(&self.block, 4)
    }

    /// The id of child `i`.
    pub fn child(&self, i: u32) -> (r: BlockId)
        requires
            self.wf(),
            i < self.spec_num_children(),
        ensures
            r.value == self.spec_child(i as int),
    {
        proof {
            lemma_children_fit(self.spec_layout(), self.block@);
            assert((i + 1) * BLOCK_ID_SIZE <= self.spec_num_children() * BLOCK_ID_SIZE) by (nonlinear_arith)
                requires
                    i + 1 <= self.spec_num_children(),
            ;
        }
        let off = NODE_HEADER_SIZE + (i as usize) * BLOCK_ID_SIZE;
        let bytes = vstd::slice::slice_to_vec(
            vstd::slice::slice_subrange(self.block.as_slice(), off, off + BLOCK_ID_SIZE),
        );
        BlockId::from_bytes(&bytes)
    }

    /// The ids of all children, in order.
    pub fn children(&self) -> (r: Vec<BlockId>)
        requires
            self.wf(),
        ensures
            r@.len() == self.spec_num_children(),
            forall|i: int| 0 <= i < r@.len() ==> r@[i].value == self.spec_child(i),
    {
        let n = self.num_children();
        let mut r: Vec<BlockId> = Vec::new();
        let mut i: u32 = 0;
        while i < n
            invariant
                self.wf(),
                0 <= i <= n,
                n == self.spec_num_children(),
                r@.len() == i,
                forall|k: int| 0 <= k < i ==> r@[k].value == self.spec_child(k),
            decreases n - i,
        {
            let c = self.child(i);
            r.push(c);
            i = i + 1;
        }
        r
    }
}

/// All children of a valid inner block lie inside the block.
pub proof fn lemma_children_fit(layout: NodeLayout, b: Seq<u8>)
    requires
        layout.valid(),
        is_inner_bytes(layout, b),
    ensures
        NODE_HEADER_SIZE + spec_size_field(b) * BLOCK_ID_SIZE <= b.len(),
{
    let k = layout.spec_max_children_per_inner_node();
    let nc = spec_size_field(b);
    assert(k * BLOCK_ID_SIZE <= (layout.block_size_bytes - NODE_HEADER_SIZE) as nat) by (nonlinear_arith)
        requires
            k == ((layout.block_size_bytes - NODE_HEADER_SIZE) as nat) / (BLOCK_ID_SIZE as nat),
            layout.block_size_bytes >= NODE_HEADER_SIZE,
    ;
    assert(nc * BLOCK_ID_SIZE <= k * BLOCK_ID_SIZE) by (nonlinear_arith)
        requires
            nc <= k,
    ;
}

/// Serializes an inner node: header with the given depth and child count,
/// then the children's ids, then zeroes.
pub fn serialize_inner_node(depth: u8, children: &Vec<BlockId>, layout: &NodeLayout) -> (r: Vec<
    u8,
>)
    requires
        layout.valid(),
        1 <= depth <= MAX_DEPTH,
        1 <= children@.len() <= layout.spec_max_children_per_inner_node(),
    ensures
        r@.len() == layout.block_size_bytes,
        is_inner_bytes(*layout, r@),
        spec_depth(r@) == depth,
        spec_size_field(r@) == children@.len(),
        forall|i: int| 0 <= i < children@.len() ==> spec_child_id(r@, i) == children@[i].value,
{
    let mut block: Vec<u8> = Vec::new();
    let bs = layout.block_size_bytes as usize;
    let n = children.len();
    block.resize(bs, 0u8);
    write_node_header(&mut block, depth, n as u32);
    proof {
        lemma_children_fit(*layout, block@);
    }
    let mut i: usize = 0;
    while i < n
        invariant
            layout.valid(),
            0 <= i <= n,
            n == children@.len(),
            1 <= n <= layout.spec_max_children_per_inner_node(),
            block@.len() == layout.block_size_bytes,
            spec_format_version(block@) == FORMAT_VERSION_HEADER,
            block@[2] == 0,
            spec_depth(block@) == depth,
            spec_size_field(block@) == n,
            NODE_HEADER_SIZE + n * BLOCK_ID_SIZE <= block@.len(),
            forall|k: int| 0 <= k < i ==> spec_child_id(block@, k) == children@[k].value,
        decreases n - i,
    {
        let id_bytes = children[i].to_bytes();
        let off = NODE_HEADER_SIZE + i * BLOCK_ID_SIZE;
        proof {
            assert((i + 1) * BLOCK_ID_SIZE <= n * BLOCK_ID_SIZE) by (nonlinear_arith)
                requires
                    i + 1 <= n,
            ;
            assert(i * BLOCK_ID_SIZE + BLOCK_ID_SIZE == (i + 1) * BLOCK_ID_SIZE) by (nonlinear_arith);
        }
        let ghost pre = block@;
        let bl = block.len();
        let mut j: usize = 0;
        while j < BLOCK_ID_SIZE
            invariant
                0 <= j <= BLOCK_ID_SIZE,
                off + BLOCK_ID_SIZE <= bl,
                bl == block@.len(),
                id_bytes@.len() == 16,
                block@.len() == pre.len(),
                forall|k: int| 0 <= k < block@.len() && !(off <= k < off + j) ==> block@[k]
                    == pre[k],
                forall|k: int| off <= k < off + j ==> block@[k] == id_bytes@[k - off],
            decreases BLOCK_ID_SIZE - j,
        {
            let idx = off + j;
            block[idx] = id_bytes[j];
            j = j + 1;
        }
        proof {
            assert(block@.subrange(off as int, off + BLOCK_ID_SIZE) =~= id_bytes@);
            assert(spec_child_id(block@, i as int) == children@[i as int].value);
            assert forall|k: int| 0 <= k < i implies spec_child_id(block@, k) == children@[k].value by {
                assert(spec_child_id(pre, k) == children@[k].value);
                assert((k + 1) * BLOCK_ID_SIZE <= i * BLOCK_ID_SIZE) by (nonlinear_arith)
                    requires
                        0 <= k + 1 <= i,
                ;
                assert(0 <= k * BLOCK_ID_SIZE) by (nonlinear_arith)
                    requires
                        0 <= k,
                ;
                assert(k * BLOCK_ID_SIZE + BLOCK_ID_SIZE == (k + 1) * BLOCK_ID_SIZE) by (nonlinear_arith);
                assert(block@.subrange(
                    NODE_HEADER_SIZE + k * BLOCK_ID_SIZE,
                    NODE_HEADER_SIZE + k * BLOCK_ID_SIZE + BLOCK_ID_SIZE,
                ) =~= pre.subrange(
                    NODE_HEADER_SIZE + k * BLOCK_ID_SIZE,
                    NODE_HEADER_SIZE + k * BLOCK_ID_SIZE + BLOCK_ID_SIZE,
                ));
            }
        }
        i = i + 1;
    }
    block
}

/// A node of the tree: a leaf holding bytes, or an inner node holding child
/// ids.
pub enum DataNode {
    Leaf(DataLeafNode),
    Inner(DataInnerNode),
}

impl DataNode {
    pub open spec fn wf(&self) -> bool {
        match self {
            DataNode::Leaf(n) => n.wf(),
            DataNode::Inner(n) => n.wf(),
        }
    }

    pub open spec fn spec_block_id(&self) -> BlockId {
        match self {
            DataNode::Leaf(n) => n.spec_block_id(),
            DataNode::Inner(n) => n.spec_block_id(),
        }
    }

    pub open spec fn spec_depth(&self) -> u8 {
        match self {
            DataNode::Leaf(n) => 0u8,
            DataNode::Inner(n) => n.spec_depth(),
        }
    }

    pub fn block_id(&self) -> (r: &BlockId)
        ensures
            r == self.spec_block_id(),
    {
        match self {
            DataNode::Leaf(n) => n.block_id(),
            DataNode::Inner(n) => n.block_id(),
        }
    }

    pub fn depth(&self) -> (r: u8)
        requires
            self.wf(),
        ensures
            r == self.spec_depth(),
    {
        match self {
            DataNode::Leaf(n) => 0u8,
            DataNode::Inner(n) => n.depth(),
        }
    }
}

impl DataLeafNode {
    /// Wraps the leaf as a node.
    pub fn upcast(self) -> (r: DataNode)
        ensures
            r == DataNode::Leaf(self),
    {
        DataNode::Leaf(self)
    }
}

impl DataInnerNode {
    /// Wraps the inner node as a node.
    pub fn upcast(self) -> (r: DataNode)
        ensures
            r == DataNode::Inner(self),
    {
        DataNode::Inner(self)
    }
}

/// Parsing inverts leaf serialization: a block whose payload region holds
/// `payload` and whose size field reads `s` parses back to exactly the first
/// `s` bytes of `payload` as its stored data.
pub proof fn lemma_leaf_serialization_round_trip(
    layout: NodeLayout,
    block: Seq<u8>,
    payload: Seq<u8>,
    s: nat,
)
    requires
        layout.valid(),
        is_leaf_bytes(layout, block),
        spec_size_field(block) == s,
        block.subrange(NODE_HEADER_SIZE as int, block.len() as int) == payload,
    ensures
        spec_depth(block) == 0,
        spec_format_version(block) == FORMAT_VERSION_HEADER,
        s <= payload.len(),
        spec_leaf_data(block) == payload.subrange(0, s as int),
{
    assert(spec_leaf_data(block) =~= payload.subrange(0, s as int));
}

} // verus!
