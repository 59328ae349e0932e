use vstd::prelude::*;

use crate::StoreError;
use crate::arith::pow_u64;
use crate::block_id::BlockId;
use crate::data_node::DataNode;
use crate::data_node_store::DataNodeStore;
use crate::tree_model::BlockMap;
use crate::tree_model::is_tree;
use crate::tree_model::lmd_subtree;
use crate::tree_model::valid_subtree;
use crate::tree_model::children_num_nodes;
use crate::tree_model::lemma_children_index;
use crate::tree_model::lemma_counts;
use crate::tree_model::lemma_frame;
use crate::tree_model::lemma_children_update_general;
use crate::tree_model::lemma_ids_contain_self;
use crate::tree_model::lemma_children_prefix;
use crate::tree_model::valid_children;
use crate::tree_model::children_disjoint;
use crate::tree_model::children_ids;
use crate::tree_model::full_children;
use crate::tree_model::lemma_full_props;
use crate::tree_model::full_subtree;
use crate::tree_model::lemma_ids_in_dom;
use crate::tree_model::lemma_nav;
use crate::tree_model::lemma_leaf_update;
use crate::tree_model::lemma_leaf_injective;
use crate::tree_model::lemma_nav_leaf_block_change;
use crate::tree_model::unchanged_outside;
use crate::tree_model::agrees_on;
use crate::tree_model::lemma_nav_child;
use crate::tree_model::lemma_num_nodes_card;
use crate::tree_model::spec_capacity;
use crate::tree_model::spec_k;
use crate::tree_model::spec_mbl;
use crate::tree_model::subtree_blob;
use crate::tree_model::subtree_byte;
use crate::tree_model::subtree_ids;
use crate::tree_model::subtree_leaf_id;
use crate::tree_model::subtree_num_bytes;
use crate::tree_model::subtree_num_leaves;
use crate::tree_model::subtree_num_nodes;
use crate::tree_model::tree_blob;
use crate::tree_model::tree_depth;
use crate::tree_model::tree_ids;
use crate::layout::NodeLayout;

verus! {

/// A mutable view of one blob, rooted at one node of the store. The tree
/// only remembers its root id; every operation takes the node store it reads
/// and writes.
pub struct DataTree {
    pub root_id: BlockId,
}

impl DataTree {
    pub open spec fn spec_root(&self) -> u128 {
        self.root_id.value
    }

    /// A handle on the tree rooted at `root_id`.
    pub fn new(root_id: BlockId) -> (r: DataTree)
        ensures
            r.spec_root() == root_id.value,
    {
        DataTree { root_id }
    }

    /// The id under which the tree's root block is stored. It never changes,
    /// whatever is done to the tree.
    pub fn root_node_id(&self) -> (r: &BlockId)
        ensures
            r.value == self.spec_root(),
    {
        &self.root_id
    }

    /// How many bytes the blob holds.
    pub fn num_bytes(&self, ns: &DataNodeStore) -> (r: Result<u64, StoreError>)
        requires
            ns.wf(),
            is_tree(ns@, ns.spec_layout(), self.spec_root()),
        ensures
            r matches Ok(n) && n == tree_blob(ns@, ns.spec_layout(), self.spec_root()).len(),
    {
        proof {
            ns.lemma_layout_valid();
        }
        let depth = root_depth(ns, self.root_id);
        Ok(num_bytes_rec(ns, self.root_id, depth))
    }

    /// How many nodes the tree occupies in the store.
    pub fn num_nodes(&self, ns: &DataNodeStore) -> (r: Result<u64, StoreError>)
        requires
            ns.wf(),
            is_tree(ns@, ns.spec_layout(), self.spec_root()),
        ensures
            r matches Ok(n) && n == subtree_num_nodes(
                ns@,
                self.spec_root(),
                tree_depth(ns@, self.spec_root()),
            ),
    {
        let ghost m = ns@;
        let ghost layout = ns.spec_layout();
        let ghost depth = tree_depth(ns@, self.spec_root());
        proof {
            crate::data_node_store::lemma_node_store_dom_bounded(ns);
            lemma_num_nodes_card(m, layout, self.spec_root(), depth);
            lemma_ids_in_dom(m, layout, self.spec_root(), depth);
            assert(subtree_ids(m, self.spec_root(), depth).subset_of(m.dom()));
            vstd::set_lib::lemma_len_subset(subtree_ids(m, self.spec_root(), depth), m.dom());
        }
        let depth = root_depth(ns, self.root_id);
        Ok(num_nodes_rec(ns, self.root_id, depth))
    }

    /// Nothing is buffered: every operation writes through to the store, so
    /// flushing has nothing left to do.
    pub fn flush(&mut self, ns: &mut DataNodeStore) -> (r: Result<(), StoreError>)
        requires
            old(ns).wf(),
        ensures
            *final(ns) == *old(ns),
            *final(self) == *old(self),
            r is Ok,
    {
        Ok(())
    }

    /// Reads `target.len()` bytes starting at `offset` into `target`. Fails
    /// without touching `target` if that range reaches past the blob's end.
    pub fn read_bytes(&self, ns: &DataNodeStore, offset: u64, target: &mut Vec<u8>) -> (r: Result<
        (),
        StoreError,
    >)
        requires
            ns.wf(),
            is_tree(ns@, ns.spec_layout(), self.spec_root()),
        ensures
            r is Ok <==> offset + old(target)@.len() <= tree_blob(
                ns@,
                ns.spec_layout(),
                self.spec_root(),
            ).len(),
            r is Ok ==> final(target)@ == tree_blob(
                ns@,
                ns.spec_layout(),
                self.spec_root(),
            ).subrange(offset as int, offset + old(target)@.len()),
            r is Err ==> *final(target) == *old(target) && r == Err::<(), StoreError>(
                StoreError::OutOfRange,
            ),
    {
        proof {
            ns.lemma_layout_valid();
        }
        let depth = root_depth(ns, self.root_id);
        let nb = num_bytes_rec(ns, self.root_id, depth);
        let len = target.len();
        if offset > nb || (len as u64) > nb - offset {
            return Err(StoreError::OutOfRange);
        }
        read_range(ns, self.root_id, depth, offset, target);
        proof {
            assert(target@ =~= tree_blob(ns@, ns.spec_layout(), self.spec_root()).subrange(
                offset as int,
                offset + len,
            ));
        }
        Ok(())
    }

    /// Reads as many bytes as the blob still holds at `offset`, up to
    /// `target.len()`, into the front of `target`; says how many.
    pub fn try_read_bytes(&self, ns: &DataNodeStore, offset: u64, target: &mut Vec<u8>) -> (r:
        Result<usize, StoreError>)
        requires
            ns.wf(),
            is_tree(ns@, ns.spec_layout(), self.spec_root()),
        ensures
            r matches Ok(n) ==> {
                let blob = tree_blob(ns@, ns.spec_layout(), self.spec_root());
                let avail = if offset as int >= blob.len() {
                    0
                } else if offset + old(target)@.len() <= blob.len() {
                    old(target)@.len() as int
                } else {
                    blob.len() - offset
                };
                &&& n == avail
                &&& final(target)@.len() == old(target)@.len()
                &&& forall|k: int| 0 <= k < avail ==> final(target)@[k] == blob[offset + k]
                &&& forall|k: int|
                    avail <= k < final(target)@.len() ==> final(target)@[k] == old(target)@[k]
            },
            r is Ok,
    {
        proof {
            ns.lemma_layout_valid();
        }
        let ghost blob = tree_blob(ns@, ns.spec_layout(), self.spec_root());
        let depth = root_depth(ns, self.root_id);
        let nb = num_bytes_rec(ns, self.root_id, depth);
        let len = target.len();
        let avail: usize = if offset >= nb {
            0
        } else if (len as u64) <= nb - offset {
            len
        } else {
            (nb - offset) as usize
        };
        let mut head: Vec<u8> = Vec::new();
        head.resize(avail, 0u8);
        if avail > 0 {
            read_range(ns, self.root_id, depth, offset, &mut head);
        }
        let mut i: usize = 0;
        while i < avail
            invariant
                0 <= i <= avail,
                avail <= target@.len(),
                head@.len() == avail,
                avail > 0 ==> forall|k: int|
                    0 <= k < avail ==> head@[k] == subtree_byte(
                        ns@,
                        ns.spec_layout(),
                        self.spec_root(),
                        tree_depth(ns@, self.spec_root()),
                        offset + k,
                    ),
                target@.len() == old(target)@.len(),
                forall|k: int| 0 <= k < i ==> target@[k] == head@[k],
                forall|k: int| i <= k < target@.len() ==> target@[k] == old(target)@[k],
            decreases avail - i,
        {
            let v = head[i];
            set_elem_helper(target, i, v);
            i = i + 1;
        }
        proof {
            assert(blob.len() == nb);
            assert forall|k: int| 0 <= k < avail implies target@[k] == blob[offset + k] by {
                assert(target@[k] == head@[k]);
                assert(blob[offset + k] == subtree_byte(
                    ns@,
                    ns.spec_layout(),
                    self.spec_root(),
                    tree_depth(ns@, self.spec_root()),
                    offset + k,
                ));
            }
        }
        Ok(avail)
    }
}

/// Replaces element `i` of the vector.
fn set_elem_helper(v: &mut Vec<u8>, i: usize, value: u8)
    requires
        i < old(v)@.len(),
    ensures
        final(v)@ == old(v)@.update(i as int, value),
{
    v[i] = value;
}

/// Reads the root block's depth field.
fn root_depth(ns: &DataNodeStore, id: BlockId) -> (r: u8)
    requires
        ns.wf(),
        is_tree(ns@, ns.spec_layout(), id.value),
    ensures
        r == tree_depth(ns@, id.value),
        valid_subtree(ns@, ns.spec_layout(), id.value, r as nat),
        lmd_subtree(ns@, ns.spec_layout(), id.value, r as nat),
        subtree_num_bytes(ns@, ns.spec_layout(), id.value, r as nat) <= u64::MAX,
    {
    let ghost m = ns@;
    let ghost layout = ns.spec_layout();
    let ghost depth = tree_depth(m, id.value);
    proof {
        ns.lemma_layout_valid();
    }
    match ns.load(id) {
        Ok(Some(node)) => {
            proof {
                if depth == 0 {
                } else {
                }
            }
            node.depth()
        },
        _ => {
            proof {
                lemma_tree_root_is_node(m, layout, id.value);
                assert(false);
            }
            0
        },
    }
}

/// The root of a well-formed tree is a parseable node.
proof fn lemma_tree_root_is_node(m: BlockMap, layout: NodeLayout, root: u128)
    requires
        is_tree(m, layout, root),
    ensures
        crate::data_node_store::is_node_bytes(layout, m[root]),
{
}

/// How many bytes the subtree holds, by walking its rightmost path.
fn num_bytes_rec(ns: &DataNodeStore, id: BlockId, depth: u8) -> (r: u64)
    requires
        ns.wf(),
        valid_subtree(ns@, ns.spec_layout(), id.value, depth as nat),
        lmd_subtree(ns@, ns.spec_layout(), id.value, depth as nat),
        subtree_num_bytes(ns@, ns.spec_layout(), id.value, depth as nat) <= u64::MAX,
    ensures
        r == subtree_num_bytes(ns@, ns.spec_layout(), id.value, depth as nat),
    decreases depth,
{
    let ghost m = ns@;
    let ghost layout = ns.spec_layout();
    proof {
        ns.lemma_layout_valid();
    }
    match ns.load(id) {
        Ok(Some(DataNode::Leaf(leaf))) => {
            proof {
                if depth > 0 {
                    assert(crate::layout::spec_depth(m[id.value]) >= 1);
                    assert(crate::layout::spec_depth(leaf.spec_block()) == 0);
                    assert(false);
                }
            }
            leaf.num_bytes() as u64
        },
        Ok(Some(DataNode::Inner(inner))) => {
            proof {
                if depth == 0 {
                    assert(crate::layout::spec_depth(m[id.value]) == 0);
                    assert(crate::layout::spec_depth(inner.spec_block()) >= 1);
                    assert(false);
                }
            }
            let nc = inner.num_children();
            let ghost b = m[id.value];
            let ghost cdepth = (depth - 1) as nat;
            let ghost cap = spec_capacity(layout, cdepth);
            let ghost mbl = spec_mbl(layout);
            let ghost ncm1 = (nc - 1) as nat;
            let ghost nb = subtree_num_bytes(m, layout, id.value, depth as nat);
            let last = inner.child(nc - 1);
            proof {
                lemma_children_index(m, layout, b, cdepth, nc as nat, nc as int - 1);
                lemma_counts(m, layout, last.value, cdepth);
                crate::arith::lemma_pow_pos(spec_k(layout), cdepth);
                assert(nb == ncm1 * cap * mbl + subtree_num_bytes(m, layout, last.value, cdepth));
                assert(ncm1 * cap * mbl >= 0) by (nonlinear_arith);
            }
            let tail = num_bytes_rec(ns, last, depth - 1);
            if nc == 1 {
                proof {
                    assert(ncm1 * cap * mbl == 0) by (nonlinear_arith)
                        requires
                            ncm1 == 0,
                    ;
                }
                tail
            } else {
                proof {
                    assert(cap <= ncm1 * cap && ncm1 * cap <= ncm1 * cap * mbl) by (nonlinear_arith)
                        requires
                            ncm1 >= 1,
                            cap >= 1,
                            mbl >= 1,
                    ;
                }
                let cap_e = pow_u64(ns.layout().max_children_per_inner_node() as u64, depth - 1);
                let full_leaves = ((nc - 1) as u64) * cap_e;
                proof {
                    assert(ncm1 * cap * mbl <= nb) by (nonlinear_arith)
                        requires
                            nb == ncm1 * cap * mbl + subtree_num_bytes(
                                m,
                                layout,
                                last.value,
                                cdepth,
                            ),
                            subtree_num_bytes(m, layout, last.value, cdepth) >= 0,
                    ;
                }
                let full_bytes = full_leaves * (ns.layout().max_bytes_per_leaf() as u64);
                full_bytes + tail
            }
        },
        _ => {
            proof {
                assert(false);
            }
            0
        },
    }
}

/// How many leaves the subtree holds, by walking its rightmost path.
fn num_leaves_rec(ns: &DataNodeStore, id: BlockId, depth: u8) -> (r: u64)
    requires
        ns.wf(),
        valid_subtree(ns@, ns.spec_layout(), id.value, depth as nat),
        lmd_subtree(ns@, ns.spec_layout(), id.value, depth as nat),
        subtree_num_bytes(ns@, ns.spec_layout(), id.value, depth as nat) <= u64::MAX + spec_mbl(
            ns.spec_layout(),
        ),
    ensures
        r == subtree_num_leaves(ns@, ns.spec_layout(), id.value, depth as nat),
        r >= 1,
    decreases depth,
{
    let ghost m = ns@;
    let ghost layout = ns.spec_layout();
    proof {
        ns.lemma_layout_valid();
        lemma_counts(m, layout, id.value, depth as nat);
        lemma_num_leaves_bounded(m, layout, id.value, depth as nat);
    }
    match ns.load(id) {
        Ok(Some(DataNode::Leaf(leaf))) => {
            proof {
                if depth > 0 {
                    assert(false);
                }
            }
            1
        },
        Ok(Some(DataNode::Inner(inner))) => {
            proof {
                if depth == 0 {
                    assert(false);
                }
            }
            let nc = inner.num_children();
            let ghost b = m[id.value];
            let ghost cdepth = (depth - 1) as nat;
            let ghost cap = spec_capacity(layout, cdepth);
            let ghost ncm1 = (nc - 1) as nat;
            let ghost nl = subtree_num_leaves(m, layout, id.value, depth as nat);
            let last = inner.child(nc - 1);
            proof {
                lemma_children_index(m, layout, b, cdepth, nc as nat, nc as int - 1);
                lemma_counts(m, layout, last.value, cdepth);
                crate::arith::lemma_pow_pos(spec_k(layout), cdepth);
                assert(nl == ncm1 * cap + subtree_num_leaves(m, layout, last.value, cdepth));
                assert(ncm1 * cap >= 0) by (nonlinear_arith);
                assert(subtree_num_bytes(m, layout, last.value, cdepth) <= subtree_num_bytes(
                    m,
                    layout,
                    id.value,
                    depth as nat,
                )) by (nonlinear_arith)
                    requires
                        subtree_num_bytes(m, layout, id.value, depth as nat) == ncm1 * cap
                            * spec_mbl(layout) + subtree_num_bytes(m, layout, last.value, cdepth),
                        ncm1 * cap * spec_mbl(layout) >= 0,
                ;
                assert(ncm1 * cap * spec_mbl(layout) >= 0) by (nonlinear_arith);
            }
            let tail = num_leaves_rec(ns, last, depth - 1);
            if nc == 1 {
                proof {
                    assert(ncm1 * cap == 0) by (nonlinear_arith)
                        requires
                            ncm1 == 0,
                    ;
                }
                tail
            } else {
                proof {
                    assert(cap <= ncm1 * cap) by (nonlinear_arith)
                        requires
                            ncm1 >= 1,
                            cap >= 1,
                    ;
                }
                let cap_e = pow_u64(ns.layout().max_children_per_inner_node() as u64, depth - 1);
                ((nc - 1) as u64) * cap_e + tail
            }
        },
        _ => {
            proof {
                assert(false);
            }
            1
        },
    }
}

/// The leaf count of a tree small enough to address is itself small: every
/// leaf but the last accounts for a full leaf of bytes.
pub proof fn lemma_num_leaves_bounded(m: BlockMap, layout: NodeLayout, id: u128, depth: nat)
    requires
        layout.valid(),
        valid_subtree(m, layout, id, depth),
        lmd_subtree(m, layout, id, depth),
        subtree_num_bytes(m, layout, id, depth) <= u64::MAX + spec_mbl(layout),
    ensures
        subtree_num_leaves(m, layout, id, depth) <= u64::MAX,
        (subtree_num_leaves(m, layout, id, depth) - 1) * spec_mbl(layout) <= u64::MAX + spec_mbl(
            layout,
        ),
{
    lemma_counts(m, layout, id, depth);
    let nl = subtree_num_leaves(m, layout, id, depth);
    let mbl = spec_mbl(layout);
    assert(nl - 1 <= (nl - 1) * mbl) by (nonlinear_arith)
        requires
            nl >= 1,
            mbl >= 1,
    ;
    assert((nl - 1) * 32 <= (nl - 1) * mbl) by (nonlinear_arith)
        requires
            nl >= 1,
            mbl >= 32,
    ;
}

/// How many nodes the subtree occupies, by full traversal.
fn num_nodes_rec(ns: &DataNodeStore, id: BlockId, depth: u8) -> (r: u64)
    requires
        ns.wf(),
        valid_subtree(ns@, ns.spec_layout(), id.value, depth as nat),
        subtree_num_nodes(ns@, id.value, depth as nat) <= u64::MAX,
    ensures
        r == subtree_num_nodes(ns@, id.value, depth as nat),
    decreases depth, 1int,
{
    let ghost m = ns@;
    let ghost layout = ns.spec_layout();
    proof {
        ns.lemma_layout_valid();
    }
    match ns.load(id) {
        Ok(Some(DataNode::Leaf(leaf))) => {
            proof {
                if depth > 0 {
                    assert(false);
                }
            }
            1
        },
        Ok(Some(DataNode::Inner(inner))) => {
            proof {
                if depth == 0 {
                    assert(false);
                }
            }
            let ghost b = m[id.value];
            let ghost cdepth = (depth - 1) as nat;
            let nc = inner.num_children();
            let mut total: u64 = 1;
            let mut i: u32 = 0;
            proof {
                lemma_children_num_nodes_mono(m, layout, b, cdepth, nc as nat);
            }
            while i < nc
                invariant
                    ns.wf(),
                    m == ns@,
                    layout == ns.spec_layout(),
                    b == m[id.value],
                    0 <= i <= nc,
                    depth >= 1,
                    cdepth == (depth - 1) as nat,
                    inner.wf(),
                    inner.spec_block() == b,
                    inner.spec_num_children() == nc,
                    valid_subtree(m, layout, id.value, depth as nat),
                    subtree_num_nodes(m, id.value, depth as nat) <= u64::MAX,
                    total == 1 + children_num_nodes(m, b, cdepth, i as nat),
                    forall|j: nat|
                        j <= nc ==> children_num_nodes(m, b, cdepth, j) <= children_num_nodes(
                            m,
                            b,
                            cdepth,
                            nc as nat,
                        ),
                decreases nc - i,
            {
                let child = inner.child(i);
                proof {
                    lemma_children_index(m, layout, b, cdepth, nc as nat, i as int);
                    assert(children_num_nodes(m, b, cdepth, (i + 1) as nat) == children_num_nodes(
                        m,
                        b,
                        cdepth,
                        i as nat,
                    ) + subtree_num_nodes(m, child.value, cdepth));
                }
                let c = num_nodes_rec(ns, child, depth - 1);
                total = total + c;
                i = i + 1;
            }
            total
        },
        _ => {
            proof {
                assert(false);
            }
            1
        },
    }
}

/// Longer child prefixes account for at least as many nodes.
proof fn lemma_children_num_nodes_mono(
    m: BlockMap,
    layout: NodeLayout,
    b: Seq<u8>,
    cdepth: nat,
    n: nat,
)
    ensures
        forall|j: nat|
            j <= n ==> children_num_nodes(m, b, cdepth, j) <= children_num_nodes(m, b, cdepth, n),
    decreases n,
{
    if n > 0 {
        lemma_children_num_nodes_mono(m, layout, b, cdepth, (n - 1) as nat);
        assert forall|j: nat| j <= n implies children_num_nodes(m, b, cdepth, j)
            <= children_num_nodes(m, b, cdepth, n) by {
            if j <= n - 1 {
                assert(children_num_nodes(m, b, cdepth, j) <= children_num_nodes(
                    m,
                    b,
                    cdepth,
                    (n - 1) as nat,
                ));
            }
        }
    }
}

/// Loads the block holding leaf number `leaf` of the subtree, navigating by
/// index arithmetic.
fn load_leaf(ns: &DataNodeStore, id: BlockId, depth: u8, leaf: u64) -> (r:
    crate::data_node::DataLeafNode)
    requires
        ns.wf(),
        valid_subtree(ns@, ns.spec_layout(), id.value, depth as nat),
        lmd_subtree(ns@, ns.spec_layout(), id.value, depth as nat),
        subtree_num_bytes(ns@, ns.spec_layout(), id.value, depth as nat) <= u64::MAX + spec_mbl(
            ns.spec_layout(),
        ),
        leaf < subtree_num_leaves(ns@, ns.spec_layout(), id.value, depth as nat),
    ensures
        r.wf(),
        r.spec_block_id().value == subtree_leaf_id(
            ns@,
            ns.spec_layout(),
            id.value,
            depth as nat,
            leaf as nat,
        ),
        r.spec_block() == ns@[r.spec_block_id().value],
    decreases depth,
{
    let ghost m = ns@;
    let ghost layout = ns.spec_layout();
    proof {
        ns.lemma_layout_valid();
        lemma_nav(m, layout, id.value, depth as nat, leaf as nat);
    }
    match ns.load(id) {
        Ok(Some(DataNode::Leaf(l))) => {
            proof {
                if depth > 0 {
                    assert(false);
                }
            }
            l
        },
        Ok(Some(DataNode::Inner(inner))) => {
            proof {
                if depth == 0 {
                    assert(false);
                }
                lemma_nav_child(m, layout, id.value, depth as nat, leaf as nat);
            }
            let ghost b = m[id.value];
            let ghost cdepth = (depth - 1) as nat;
            let ghost cap = spec_capacity(layout, cdepth);
            let nc = inner.num_children();
            let ghost ncm1 = (nc - 1) as nat;
            proof {
                crate::arith::lemma_pow_pos(spec_k(layout), cdepth);
                lemma_counts(m, layout, id.value, depth as nat);
            }
            let (c, rem): (u64, u64) = if nc == 1 {
                proof {
                    lemma_counts(
                        m,
                        layout,
                        crate::data_node::spec_child_id(b, 0),
                        cdepth,
                    );
                    assert(leaf < subtree_num_leaves(m, layout, id.value, depth as nat));
                    assert(ncm1 * cap == 0) by (nonlinear_arith)
                        requires
                            ncm1 == 0,
                    ;
                    assert(subtree_num_leaves(m, layout, id.value, depth as nat)
                        == subtree_num_leaves(
                        m,
                        layout,
                        crate::data_node::spec_child_id(b, 0),
                        cdepth,
                    ));
                    assert(subtree_num_leaves(
                        m,
                        layout,
                        crate::data_node::spec_child_id(b, 0),
                        cdepth,
                    ) <= cap);
                    assert(leaf as int / cap as int == 0 && leaf as int % cap as int
                        == leaf as int) by {
                        vstd::arithmetic::div_mod::lemma_fundamental_div_mod_converse(
                            leaf as int,
                            cap as int,
                            0,
                            leaf as int,
                        );
                    }
                }
                (0u64, leaf)
            } else {
                proof {
                    let nl = subtree_num_leaves(m, layout, id.value, depth as nat);
                    lemma_children_index(m, layout, b, cdepth, nc as nat, nc as int - 1);
                    lemma_counts(
                        m,
                        layout,
                        crate::data_node::spec_child_id(b, nc as int - 1),
                        cdepth,
                    );
                    assert(cap <= ncm1 * cap) by (nonlinear_arith)
                        requires
                            ncm1 >= 1,
                            cap >= 1,
                    ;
                    lemma_num_leaves_bounded(m, layout, id.value, depth as nat);
                }
                let cap_e = pow_u64(ns.layout().max_children_per_inner_node() as u64, depth - 1);
                (leaf / cap_e, leaf % cap_e)
            };
            let child = inner.child(c as u32);
            proof {
                let nb_child = subtree_num_bytes(
                    m,
                    layout,
                    crate::data_node::spec_child_id(b, c as int),
                    cdepth,
                );
                let nb = subtree_num_bytes(m, layout, id.value, depth as nat);
                let mbl = spec_mbl(layout);
                if c < nc - 1 {
                    lemma_children_index(m, layout, b, cdepth, nc as nat, c as int);
                    lemma_full_props(
                        m,
                        layout,
                        crate::data_node::spec_child_id(b, c as int),
                        cdepth,
                    );
                    assert(nb_child == cap * mbl);
                    assert(cap * mbl <= ncm1 * cap * mbl) by (nonlinear_arith)
                        requires
                            ncm1 >= 1,
                            cap >= 0,
                            mbl >= 0,
                    ;
                    assert(ncm1 * cap * mbl <= nb) by (nonlinear_arith)
                        requires
                            nb == ncm1 * cap * mbl + subtree_num_bytes(
                                m,
                                layout,
                                crate::data_node::spec_child_id(b, nc as int - 1),
                                cdepth,
                            ),
                            subtree_num_bytes(
                                m,
                                layout,
                                crate::data_node::spec_child_id(b, nc as int - 1),
                                cdepth,
                            ) >= 0,
                    ;
                } else {
                    assert(ncm1 * cap * mbl >= 0) by (nonlinear_arith);
                }
            }
            load_leaf(ns, child, depth - 1, rem)
        },
        _ => {
            proof {
                assert(false);
            }
            crate::data_node::DataLeafNode { block_id: id, block: Vec::new() }
        },
    }
}

/// Fills all of `target` with the blob bytes starting at `offset`.
fn read_range(ns: &DataNodeStore, id: BlockId, depth: u8, offset: u64, target: &mut Vec<u8>)
    requires
        ns.wf(),
        valid_subtree(ns@, ns.spec_layout(), id.value, depth as nat),
        lmd_subtree(ns@, ns.spec_layout(), id.value, depth as nat),
        subtree_num_bytes(ns@, ns.spec_layout(), id.value, depth as nat) <= u64::MAX,
        offset + old(target)@.len() <= subtree_num_bytes(
            ns@,
            ns.spec_layout(),
            id.value,
            depth as nat,
        ),
    ensures
        final(target)@.len() == old(target)@.len(),
        forall|k: int|
            0 <= k < old(target)@.len() ==> final(target)@[k] == subtree_byte(
                ns@,
                ns.spec_layout(),
                id.value,
                depth as nat,
                offset + k,
            ),
{
    let ghost m = ns@;
    let ghost layout = ns.spec_layout();
    let ghost nl = subtree_num_leaves(m, layout, id.value, depth as nat);
    let ghost nb = subtree_num_bytes(m, layout, id.value, depth as nat);
    let len = target.len();
    proof {
        ns.lemma_layout_valid();
        lemma_counts(m, layout, id.value, depth as nat);
        lemma_num_leaves_bounded(m, layout, id.value, depth as nat);
    }
    let mbl = ns.layout().max_bytes_per_leaf() as u64;
    let mut done: u64 = 0;
    while (done as usize) < len
        invariant
            ns.wf(),
            m == ns@,
            layout == ns.spec_layout(),
            valid_subtree(m, layout, id.value, depth as nat),
            lmd_subtree(m, layout, id.value, depth as nat),
            nb == subtree_num_bytes(m, layout, id.value, depth as nat),
            nl == subtree_num_leaves(m, layout, id.value, depth as nat),
            nb <= u64::MAX,
            nl <= u64::MAX,
            nb <= nl * mbl,
            layout.valid(),
            mbl == spec_mbl(layout),
            mbl >= 1,
            0 <= done <= len,
            len == target@.len(),
            target@.len() == old(target)@.len(),
            offset + len <= nb,
            forall|k: int|
                0 <= k < done ==> target@[k] == subtree_byte(
                    m,
                    layout,
                    id.value,
                    depth as nat,
                    offset + k,
                ),
            forall|k: int| done <= k < len ==> target@[k] == old(target)@[k],
        decreases len - done,
    {
        let pos = offset + done;
        let leaf_idx = pos / mbl;
        let in_leaf = pos % mbl;
        proof {
            assert(pos < nb);
            assert(nb <= nl * mbl);
            vstd::arithmetic::div_mod::lemma_multiply_divide_lt(pos as int, mbl as int, nl as int);
            assert(mbl as int * nl as int == nl * mbl) by (nonlinear_arith);
            vstd::arithmetic::div_mod::lemma_mod_division_less_than_divisor(
                pos as int,
                mbl as int,
            );
            lemma_nav(m, layout, id.value, depth as nat, leaf_idx as nat);
        }
        let leaf = load_leaf(ns, id, depth, leaf_idx);
        let ghost lid = leaf.spec_block_id().value;
        // how many bytes of this leaf are wanted: up to the end of the leaf's
        // stored bytes or of the request, whichever comes first
        let leaf_size = leaf.num_bytes() as u64;
        proof {
            if leaf_idx as nat == (nl - 1) as nat {
                assert(leaf_size == nb - (nl - 1) * mbl);
            } else {
                assert(leaf_size == mbl);
            }
            assert(in_leaf < leaf_size) by {
                vstd::arithmetic::div_mod::lemma_fundamental_div_mod(pos as int, mbl as int);
                if leaf_idx as nat == (nl - 1) as nat {
                    assert(pos == leaf_idx * mbl + in_leaf);
                    assert(pos < nb);
                } else {
                    assert(leaf_idx < nl - 1);
                }
            }
        }
        let take_leaf = leaf_size - in_leaf;
        let remaining = (len - done as usize) as u64;
        let take = if take_leaf < remaining {
            take_leaf
        } else {
            remaining
        };
        let data = leaf.data();
        let mut j: u64 = 0;
        while j < take
            invariant
                0 <= j <= take,
                take >= 1,
                in_leaf + take <= leaf_size,
                leaf_size == data@.len(),
                done + take <= len,
                len == target@.len(),
                target@.len() == old(target)@.len(),
                forall|k: int|
                    done <= k < done + j ==> target@[k] == data@[in_leaf + (k - done)],
                forall|k: int| done + j <= k < len ==> target@[k] == old(target)@[k],
                forall|k: int|
                    0 <= k < done ==> target@[k] == subtree_byte(
                        m,
                        layout,
                        id.value,
                        depth as nat,
                        offset + k,
                    ),
            decreases take - j,
        {
            let v = data[(in_leaf + j) as usize];
            let idx = (done + j) as usize;
            set_elem_helper(target, idx, v);
            j = j + 1;
        }
        proof {
            assert forall|k: int| done <= k < done + take implies target@[k] == subtree_byte(
                m,
                layout,
                id.value,
                depth as nat,
                offset + k,
            ) by {
                let p = offset + k;
                vstd::arithmetic::div_mod::lemma_fundamental_div_mod(pos as int, mbl as int);
                assert(mbl as int * leaf_idx as int == leaf_idx as int * mbl as int)
                    by (nonlinear_arith);
                assert(pos == leaf_idx * mbl + in_leaf);
                assert(leaf_size <= mbl);
                assert(0 <= in_leaf + (k - done) < mbl);
                vstd::arithmetic::div_mod::lemma_fundamental_div_mod_converse(
                    p,
                    mbl as int,
                    leaf_idx as int,
                    in_leaf + (k - done),
                );
                assert(p / mbl as int == leaf_idx as int);
                assert(p % mbl as int == in_leaf + (k - done));
                assert(subtree_byte(m, layout, id.value, depth as nat, p)
                    == crate::data_node::spec_leaf_data(m[lid])[in_leaf + (k - done)]);
            }
        }
        done = done + take;
    }
}


impl DataTree {
    /// Removes the whole tree from the store, every node of it, consuming
    /// the handle.
    pub fn remove(self, ns: &mut DataNodeStore) -> (r: Result<(), StoreError>)
        requires
            old(ns).wf(),
            is_tree(old(ns)@, old(ns).spec_layout(), self.spec_root()),
        ensures
            final(ns).wf(),
            final(ns).spec_layout() == old(ns).spec_layout(),
            final(ns)@ == old(ns)@.remove_keys(tree_ids(old(ns)@, self.spec_root())),
            r is Ok,
    {
        proof {
            ns.lemma_layout_valid();
        }
        let depth = root_depth(ns, self.root_id);
        remove_subtree_rec(ns, self.root_id, depth);
        Ok(())
    }
}

/// Removes every node of the subtree from the store, children first.
fn remove_subtree_rec(ns: &mut DataNodeStore, id: BlockId, depth: u8)
    requires
        old(ns).wf(),
        valid_subtree(old(ns)@, old(ns).spec_layout(), id.value, depth as nat),
    ensures
        final(ns).wf(),
        final(ns).spec_layout() == old(ns).spec_layout(),
        final(ns)@ == old(ns)@.remove_keys(subtree_ids(old(ns)@, id.value, depth as nat)),
    decreases depth,
{
    let ghost m0 = ns@;
    let ghost layout = ns.spec_layout();
    proof {
        ns.lemma_layout_valid();
    }
    match ns.load(id) {
        Ok(Some(DataNode::Leaf(leaf))) => {
            proof {
                if depth > 0 {
                    assert(false);
                }
            }
            ns.remove(id);
            proof {
                assert(ns@ =~= m0.remove_keys(subtree_ids(m0, id.value, depth as nat)));
            }
        },
        Ok(Some(DataNode::Inner(inner))) => {
            proof {
                if depth == 0 {
                    assert(false);
                }
            }
            let ghost b = m0[id.value];
            let ghost cdepth = (depth - 1) as nat;
            let nc = inner.num_children();
            let children = inner.children();
            proof {
                assert(inner.spec_block() == b);
                assert forall|k: int| 0 <= k < nc implies children@[k].value
                    == crate::data_node::spec_child_id(b, k) by {
                    assert(children@[k].value == inner.spec_child(k));
                }
            }
            let mut i: u32 = 0;
            while i < nc
                invariant
                    ns.wf(),
                    layout == ns.spec_layout(),
                    0 <= i <= nc,
                    depth >= 1,
                    cdepth == (depth - 1) as nat,
                    b == m0[id.value],
                    nc == crate::layout::spec_size_field(b),
                    children@.len() == nc,
                    forall|k: int|
                        0 <= k < nc ==> children@[k].value == crate::data_node::spec_child_id(
                            b,
                            k,
                        ),
                    valid_children(m0, layout, b, cdepth, nc as nat),
                    children_disjoint(m0, b, cdepth, nc as nat),
                    ns@ == m0.remove_keys(children_ids(m0, b, cdepth, i as nat)),
                decreases nc - i,
            {
                let ghost mi = ns@;
                let ghost child = crate::data_node::spec_child_id(b, i as int);
                let ghost cids = subtree_ids(m0, child, cdepth);
                proof {
                    lemma_children_index(m0, layout, b, cdepth, nc as nat, i as int);
                    lemma_children_prefix(m0, layout, b, cdepth, (i + 1) as nat, nc as nat);
                    // the child's blocks are untouched so far: they are disjoint
                    // from the already-removed prefix
                    assert(children_ids(m0, b, cdepth, i as nat).disjoint(cids));
                    assert(crate::tree_model::agrees_on(m0, mi, cids)) by {
                        assert forall|x: u128| #[trigger] cids.contains(x) implies mi.dom().contains(
                            x,
                        ) && mi[x] == m0[x] by {
                            lemma_ids_in_dom(m0, layout, child, cdepth);
                            assert(!children_ids(m0, b, cdepth, i as nat).contains(x));
                        }
                    }
                    lemma_frame(m0, mi, layout, child, cdepth);
                }
                remove_subtree_rec(ns, children[i as usize], depth - 1);
                proof {
                    assert(subtree_ids(mi, child, cdepth) == cids);
                    assert(ns@ =~= m0.remove_keys(children_ids(m0, b, cdepth, (i + 1) as nat)));
                }
                i = i + 1;
            }
            ns.remove(id);
            proof {
                assert(ns@ =~= m0.remove_keys(subtree_ids(m0, id.value, depth as nat)));
            }
        },
        _ => {
            proof {
                assert(false);
            }
        },
    }
}


/// Overwrites `source.len()` stored bytes of leaf `leaf`, starting `in_off`
/// bytes into the leaf. The leaf keeps its size; every other byte of the
/// blob, and every other block of the store, stays as it was.
fn write_leaf_data(
    ns: &mut DataNodeStore,
    id: BlockId,
    depth: u8,
    leaf: u64,
    in_off: u64,
    source: &[u8],
)
    requires
        old(ns).wf(),
        valid_subtree(old(ns)@, old(ns).spec_layout(), id.value, depth as nat),
        lmd_subtree(old(ns)@, old(ns).spec_layout(), id.value, depth as nat),
        subtree_num_bytes(old(ns)@, old(ns).spec_layout(), id.value, depth as nat) <= u64::MAX,
        leaf < subtree_num_leaves(old(ns)@, old(ns).spec_layout(), id.value, depth as nat),
        in_off + source@.len() <= crate::layout::spec_size_field(
            old(ns)@[subtree_leaf_id(
                old(ns)@,
                old(ns).spec_layout(),
                id.value,
                depth as nat,
                leaf as nat,
            )],
        ),
    ensures
        final(ns).wf(),
        final(ns).spec_layout() == old(ns).spec_layout(),
        final(ns)@.dom() == old(ns)@.dom(),
        valid_subtree(final(ns)@, final(ns).spec_layout(), id.value, depth as nat),
        lmd_subtree(final(ns)@, final(ns).spec_layout(), id.value, depth as nat),
        subtree_ids(final(ns)@, id.value, depth as nat) == subtree_ids(
            old(ns)@,
            id.value,
            depth as nat,
        ),
        subtree_num_leaves(final(ns)@, final(ns).spec_layout(), id.value, depth as nat)
            == subtree_num_leaves(old(ns)@, old(ns).spec_layout(), id.value, depth as nat),
        subtree_num_bytes(final(ns)@, final(ns).spec_layout(), id.value, depth as nat)
            == subtree_num_bytes(old(ns)@, old(ns).spec_layout(), id.value, depth as nat),
        unchanged_outside(old(ns)@, final(ns)@, subtree_ids(old(ns)@, id.value, depth as nat)),
        crate::layout::spec_size_field(final(ns)@[id.value]) == crate::layout::spec_size_field(
            old(ns)@[id.value],
        ),
        crate::layout::spec_depth(final(ns)@[id.value]) == crate::layout::spec_depth(
            old(ns)@[id.value],
        ),
        forall|p: int|
            0 <= p < subtree_num_bytes(old(ns)@, old(ns).spec_layout(), id.value, depth as nat)
                ==> subtree_byte(final(ns)@, final(ns).spec_layout(), id.value, depth as nat, p)
                == (if leaf * spec_mbl(old(ns).spec_layout()) + in_off <= p < leaf * spec_mbl(
                old(ns).spec_layout(),
            ) + in_off + source@.len() {
                source@[p - (leaf * spec_mbl(old(ns).spec_layout()) + in_off) as int]
            } else {
                subtree_byte(old(ns)@, old(ns).spec_layout(), id.value, depth as nat, p)
            }),
{
    let ghost m = ns@;
    let ghost layout = ns.spec_layout();
    let ghost nl = subtree_num_leaves(m, layout, id.value, depth as nat);
    let ghost nb = subtree_num_bytes(m, layout, id.value, depth as nat);
    let ghost mbl = spec_mbl(layout);
    proof {
        ns.lemma_layout_valid();
        lemma_counts(m, layout, id.value, depth as nat);
        lemma_nav(m, layout, id.value, depth as nat, leaf as nat);
    }
    let mut leaf_node = load_leaf(ns, id, depth, leaf);
    let ghost lid = leaf_node.spec_block_id().value;
    let leaf_size = leaf_node.num_bytes();
    leaf_node.write_at(in_off as usize, source);
    let ghost nb2 = leaf_node.spec_block();
    let lid_block = *leaf_node.block_id();
    proof {
        lemma_leaf_update(m, layout, id.value, depth as nat, leaf as nat, nb2);
        lemma_ids_in_dom(m, layout, id.value, depth as nat);
    }
    ns.overwrite_raw(lid_block, leaf_node.block);
    let ghost m2 = ns@;
    proof {
        assert(m2 == m.insert(lid, nb2));
        assert(m2.dom() =~= m.dom());
        assert forall|l2: nat|
            l2 < nl implies subtree_leaf_id(m2, layout, id.value, depth as nat, l2)
            == subtree_leaf_id(m, layout, id.value, depth as nat, l2) by {
            lemma_nav_leaf_block_change(m, m2, layout, id.value, depth as nat, l2, lid);
        }
        assert forall|p: int|
            0 <= p < nb implies subtree_byte(m2, layout, id.value, depth as nat, p) == (if leaf
            * mbl + in_off <= p < leaf * mbl + in_off + source@.len() {
            source@[p - (leaf * mbl + in_off) as int]
        } else {
            subtree_byte(m, layout, id.value, depth as nat, p)
        }) by {
            let l_p = (p / mbl as int) as nat;
            let q = p % mbl as int;
            vstd::arithmetic::div_mod::lemma_fundamental_div_mod(p, mbl as int);
            vstd::arithmetic::div_mod::lemma_mod_division_less_than_divisor(p, mbl as int);
            assert(nb <= nl * mbl);
            vstd::arithmetic::div_mod::lemma_multiply_divide_lt(p, mbl as int, nl as int);
            assert(mbl as int * nl as int == nl * mbl) by (nonlinear_arith);
            assert(l_p < nl);
            lemma_nav(m, layout, id.value, depth as nat, l_p);
            let lp_id = subtree_leaf_id(m, layout, id.value, depth as nat, l_p);
            assert(subtree_leaf_id(m2, layout, id.value, depth as nat, l_p) == lp_id);
            assert(p == l_p * mbl + q) by (nonlinear_arith)
                requires
                    p == mbl as int * (p / mbl as int) + p % mbl as int,
                    l_p == p / mbl as int,
                    q == p % mbl as int,
            ;
            if l_p == leaf as nat {
                assert(lp_id == lid);
                assert(q < leaf_size) by {
                    if l_p == (nl - 1) as nat {
                        assert(leaf_size == nb - (nl - 1) * mbl);
                    }
                }
                assert((leaf * mbl + in_off <= p < leaf * mbl + in_off + source@.len()) <==> (
                in_off <= q < in_off + source@.len()));
                assert(crate::data_node::spec_leaf_data(m2[lid]).len() == leaf_size);
                assert(crate::data_node::spec_leaf_data(m2[lid])[q] == (if in_off <= q < in_off
                    + source@.len() {
                    source@[q - in_off]
                } else {
                    crate::data_node::spec_leaf_data(m[lid])[q]
                }));
            } else {
                lemma_leaf_injective(
                    m,
                    layout,
                    id.value,
                    depth as nat,
                    if l_p < leaf as nat {
                        l_p
                    } else {
                        leaf as nat
                    },
                    if l_p < leaf as nat {
                        leaf as nat
                    } else {
                        l_p
                    },
                );
                assert(lp_id != lid);
                assert(m2[lp_id] == m[lp_id]);
                assert(!(leaf * mbl + in_off <= p < leaf * mbl + in_off + source@.len())) by {
                    if l_p < leaf as nat {
                        assert((l_p + 1) * mbl <= leaf * mbl) by (nonlinear_arith)
                            requires
                                l_p + 1 <= leaf,
                                mbl >= 0,
                        ;
                        assert((l_p + 1) * mbl == l_p * mbl + mbl) by (nonlinear_arith);
                    } else {
                        assert((leaf + 1) * mbl <= l_p * mbl) by (nonlinear_arith)
                            requires
                                leaf + 1 <= l_p,
                                mbl >= 0,
                        ;
                        assert((leaf + 1) * mbl == leaf * mbl + mbl) by (nonlinear_arith);
                        assert(in_off + source@.len() <= mbl);
                    }
                }
            }
        }
        assert(unchanged_outside(m, m2, subtree_ids(m, id.value, depth as nat))) by {
            assert(subtree_ids(m, id.value, depth as nat).contains(lid));
        }
    }
}


/// Changes the stored size of the subtree's last leaf. Shrinking discards and
/// zeroes the tail; growing reveals zeroes. Nothing else changes.
fn resize_last_leaf(ns: &mut DataNodeStore, id: BlockId, depth: u8, new_size: u32)
    requires
        old(ns).wf(),
        valid_subtree(old(ns)@, old(ns).spec_layout(), id.value, depth as nat),
        lmd_subtree(old(ns)@, old(ns).spec_layout(), id.value, depth as nat),
        subtree_num_bytes(old(ns)@, old(ns).spec_layout(), id.value, depth as nat) <= u64::MAX
            + spec_mbl(old(ns).spec_layout()),
        new_size <= spec_mbl(old(ns).spec_layout()),
    ensures
        final(ns).wf(),
        final(ns).spec_layout() == old(ns).spec_layout(),
        final(ns)@.dom() == old(ns)@.dom(),
        valid_subtree(final(ns)@, final(ns).spec_layout(), id.value, depth as nat),
        lmd_subtree(final(ns)@, final(ns).spec_layout(), id.value, depth as nat),
        subtree_ids(final(ns)@, id.value, depth as nat) == subtree_ids(
            old(ns)@,
            id.value,
            depth as nat,
        ),
        subtree_num_leaves(final(ns)@, final(ns).spec_layout(), id.value, depth as nat)
            == subtree_num_leaves(old(ns)@, old(ns).spec_layout(), id.value, depth as nat),
        subtree_num_bytes(final(ns)@, final(ns).spec_layout(), id.value, depth as nat)
            == (subtree_num_leaves(old(ns)@, old(ns).spec_layout(), id.value, depth as nat) - 1)
            * spec_mbl(old(ns).spec_layout()) + new_size,
        unchanged_outside(old(ns)@, final(ns)@, subtree_ids(old(ns)@, id.value, depth as nat)),
        forall|p: int|
            0 <= p < subtree_num_bytes(old(ns)@, old(ns).spec_layout(), id.value, depth as nat)
                && p < subtree_num_bytes(
                final(ns)@,
                final(ns).spec_layout(),
                id.value,
                depth as nat,
            ) ==> subtree_byte(final(ns)@, final(ns).spec_layout(), id.value, depth as nat, p)
                == subtree_byte(old(ns)@, old(ns).spec_layout(), id.value, depth as nat, p),
        forall|p: int|
            subtree_num_bytes(old(ns)@, old(ns).spec_layout(), id.value, depth as nat) <= p
                < subtree_num_bytes(final(ns)@, final(ns).spec_layout(), id.value, depth as nat)
                ==> subtree_byte(final(ns)@, final(ns).spec_layout(), id.value, depth as nat, p)
                == 0,
{
    let ghost m = ns@;
    let ghost layout = ns.spec_layout();
    let ghost nl = subtree_num_leaves(m, layout, id.value, depth as nat);
    let ghost nb = subtree_num_bytes(m, layout, id.value, depth as nat);
    let ghost mbl = spec_mbl(layout);
    proof {
        ns.lemma_layout_valid();
        lemma_counts(m, layout, id.value, depth as nat);
        lemma_num_leaves_bounded(m, layout, id.value, depth as nat);
    }
    let last = num_leaves_rec(ns, id, depth) - 1;
    proof {
        lemma_nav(m, layout, id.value, depth as nat, last as nat);
    }
    let mut leaf_node = load_leaf(ns, id, depth, last);
    let ghost lid = leaf_node.spec_block_id().value;
    let ghost old_size = crate::layout::spec_size_field(m[lid]);
    leaf_node.resize(new_size);
    let ghost nb2 = leaf_node.spec_block();
    let lid_block = *leaf_node.block_id();
    proof {
        lemma_leaf_update(m, layout, id.value, depth as nat, last as nat, nb2);
        lemma_ids_in_dom(m, layout, id.value, depth as nat);
    }
    ns.overwrite_raw(lid_block, leaf_node.block);
    let ghost m2 = ns@;
    proof {
        assert(m2 == m.insert(lid, nb2));
        assert(m2.dom() =~= m.dom());
        let nb_new = subtree_num_bytes(m2, layout, id.value, depth as nat);
        assert(old_size == nb - (nl - 1) * mbl);
        assert(nb_new == (nl - 1) * mbl + new_size);
        assert forall|p: int| 0 <= p < nb || 0 <= p < nb_new implies (p < nb && p < nb_new
            ==> subtree_byte(m2, layout, id.value, depth as nat, p) == subtree_byte(
            m,
            layout,
            id.value,
            depth as nat,
            p,
        )) && (nb <= p < nb_new ==> subtree_byte(m2, layout, id.value, depth as nat, p)
            == 0) by {
            let l_p = (p / mbl as int) as nat;
            let q = p % mbl as int;
            vstd::arithmetic::div_mod::lemma_fundamental_div_mod(p, mbl as int);
            vstd::arithmetic::div_mod::lemma_mod_division_less_than_divisor(p, mbl as int);
            assert(nb <= nl * mbl);
            assert(nb_new <= nl * mbl) by (nonlinear_arith)
                requires
                    nb_new == (nl - 1) * mbl + new_size,
                    new_size <= mbl,
                    nl >= 1,
            ;
            if p < nl * mbl {
                vstd::arithmetic::div_mod::lemma_multiply_divide_lt(p, mbl as int, nl as int);
                assert(mbl as int * nl as int == nl * mbl) by (nonlinear_arith);
                assert(l_p < nl);
                lemma_nav(m, layout, id.value, depth as nat, l_p);
                lemma_nav_leaf_block_change(m, m2, layout, id.value, depth as nat, l_p, lid);
                let lp_id = subtree_leaf_id(m, layout, id.value, depth as nat, l_p);
                assert(p == l_p * mbl + q) by (nonlinear_arith)
                    requires
                        p == mbl as int * (p / mbl as int) + p % mbl as int,
                        l_p == p / mbl as int,
                        q == p % mbl as int,
                ;
                if l_p == (nl - 1) as nat {
                    assert(lp_id == lid);
                    assert((nl - 1) * mbl <= p);
                    assert(q == p - (nl - 1) * mbl);
                    if p < nb && p < nb_new {
                        assert(q < old_size && q < new_size);
                    }
                    if nb <= p < nb_new {
                        assert(old_size <= q < new_size);
                    }
                } else {
                    lemma_leaf_injective(m, layout, id.value, depth as nat, l_p, (nl - 1) as nat);
                    assert(lp_id != lid);
                    assert(m2[lp_id] == m[lp_id]);
                    assert(l_p < nl - 1);
                    assert((l_p + 1) * mbl <= (nl - 1) * mbl) by (nonlinear_arith)
                        requires
                            l_p + 1 <= nl - 1,
                            mbl >= 0,
                    ;
                    assert((l_p + 1) * mbl == l_p * mbl + mbl) by (nonlinear_arith);
                    assert(p < (nl - 1) * mbl);
                    assert(p < nb && p < nb_new);
                }
            }
        }
        assert(unchanged_outside(m, m2, subtree_ids(m, id.value, depth as nat))) by {
            assert(subtree_ids(m, id.value, depth as nat).contains(lid));
        }
    }
}


/// Builds a fresh one-leaf subtree at the given depth: one full zeroed leaf
/// under a chain of one-child inner nodes. Every block is new.
fn new_chain(ns: &mut DataNodeStore, cdepth: u8) -> (r: BlockId)
    requires
        old(ns).wf(),
        cdepth <= crate::layout::MAX_DEPTH,
    ensures
        final(ns).wf(),
        final(ns).spec_layout() == old(ns).spec_layout(),
        valid_subtree(final(ns)@, final(ns).spec_layout(), r.value, cdepth as nat),
        lmd_subtree(final(ns)@, final(ns).spec_layout(), r.value, cdepth as nat),
        subtree_num_leaves(final(ns)@, final(ns).spec_layout(), r.value, cdepth as nat) == 1,
        subtree_num_bytes(final(ns)@, final(ns).spec_layout(), r.value, cdepth as nat)
            == spec_mbl(old(ns).spec_layout()),
        forall|p: int|
            0 <= p < spec_mbl(old(ns).spec_layout()) ==> subtree_byte(
                final(ns)@,
                final(ns).spec_layout(),
                r.value,
                cdepth as nat,
                p,
            ) == 0,
        crate::layout::spec_depth(final(ns)@[r.value]) == cdepth,
        forall|x: u128|
            #[trigger] subtree_ids(final(ns)@, r.value, cdepth as nat).contains(x)
                ==> !(old(ns)@.dom().contains(x)),
        forall|x: u128|
            !(#[trigger] subtree_ids(final(ns)@, r.value, cdepth as nat).contains(x)) ==> ((
            final(ns)@.dom().contains(x) <==> old(ns)@.dom().contains(x)) && (
            old(ns)@.dom().contains(x) ==> final(ns)@[x] == old(ns)@[x])),
{
    let ghost m0 = ns@;
    let ghost layout = ns.spec_layout();
    proof {
        ns.lemma_layout_valid();
    }
    let mbl = ns.layout().max_bytes_per_leaf() as usize;
    let mut zeros: Vec<u8> = Vec::new();
    zeros.resize(mbl, 0u8);
    let leaf = ns.create_new_leaf_node(&zeros);
    let mut cur: BlockId = *leaf.block_id();
    proof {
        let m = ns@;
        assert forall|p: int| 0 <= p < spec_mbl(layout) implies #[trigger] subtree_byte(
            m,
            layout,
            cur.value,
            0,
            p,
        ) == 0 by {
            let mblv = spec_mbl(layout) as int;
            vstd::arithmetic::div_mod::lemma_fundamental_div_mod_converse(p, mblv, 0, p);
            assert(subtree_leaf_id(m, layout, cur.value, 0, (p / mblv) as nat) == cur.value);
            assert(crate::data_node::spec_leaf_data(m[cur.value])[p] == 0);
        }
    }
    let mut d: u8 = 0;
    while d < cdepth
        invariant
            ns.wf(),
            layout == ns.spec_layout(),
            layout.valid(),
            0 <= d <= cdepth,
            cdepth <= crate::layout::MAX_DEPTH,
            valid_subtree(ns@, layout, cur.value, d as nat),
            lmd_subtree(ns@, layout, cur.value, d as nat),
            subtree_num_leaves(ns@, layout, cur.value, d as nat) == 1,
            subtree_num_bytes(ns@, layout, cur.value, d as nat) == spec_mbl(layout),
            forall|p: int|
                0 <= p < spec_mbl(layout) ==> subtree_byte(ns@, layout, cur.value, d as nat, p)
                    == 0,
            crate::layout::spec_depth(ns@[cur.value]) == d,
            forall|x: u128|
                #[trigger] subtree_ids(ns@, cur.value, d as nat).contains(x)
                    ==> !m0.dom().contains(x),
            forall|x: u128|
                !(#[trigger] subtree_ids(ns@, cur.value, d as nat).contains(x)) ==> ((
                ns@.dom().contains(x) <==> m0.dom().contains(x)) && (m0.dom().contains(x)
                    ==> ns@[x] == m0[x])),
        decreases cdepth - d,
    {
        let ghost m = ns@;
        let ghost ids = subtree_ids(m, cur.value, d as nat);
        let mut children: Vec<BlockId> = Vec::new();
        children.push(cur);
        let inner = ns.create_new_inner_node(d + 1, &children);
        let nid = *inner.block_id();
        proof {
            let m2 = ns@;
            let ghost b2 = m2[nid.value];
            assert(m2 == m.insert(nid.value, b2));
            lemma_ids_in_dom(m, layout, cur.value, d as nat);
            assert(!ids.contains(nid.value));
            assert forall|x: u128| #[trigger] ids.contains(x) implies m2.dom().contains(x)
                && m2[x] == m[x] by {}
            assert(crate::tree_model::agrees_on(m, m2, ids));
            lemma_frame(m, m2, layout, cur.value, d as nat);
            assert(children@[0] == cur);
            assert(inner.spec_child(0) == children@[0].value);
            assert(inner.spec_block() == b2);
            assert(crate::data_node::spec_child_id(b2, 0) == cur.value);
            assert(crate::layout::spec_size_field(b2) == 1);
            assert(valid_children(m2, layout, b2, d as nat, 0));
            assert(children_disjoint(m2, b2, d as nat, 0));
            assert(children_ids(m2, b2, d as nat, 0) =~= Set::<u128>::empty());
            assert(valid_subtree(m2, layout, cur.value, d as nat));
            assert(valid_children(m2, layout, b2, d as nat, 1));
            assert(children_disjoint(m2, b2, d as nat, 1));
            assert(children_ids(m2, b2, d as nat, 1) =~= subtree_ids(m2, cur.value, d as nat));
            assert(!children_ids(m2, b2, d as nat, 1).contains(nid.value));
            assert(valid_subtree(m2, layout, nid.value, (d + 1) as nat));
            assert(lmd_subtree(m2, layout, nid.value, (d + 1) as nat)) by {
                assert(full_children(m2, layout, b2, d as nat, 0));
            }
            assert(subtree_num_leaves(m2, layout, nid.value, (d + 1) as nat) == 1) by {
                let cap = spec_capacity(layout, d as nat);
                assert((1 - 1) as nat * cap == 0) by (nonlinear_arith);
            }
            assert(subtree_num_bytes(m2, layout, nid.value, (d + 1) as nat) == spec_mbl(
                layout,
            )) by {
                let cap = spec_capacity(layout, d as nat);
                assert((1 - 1) as nat * cap * spec_mbl(layout) == 0) by (nonlinear_arith);
            }
            assert(subtree_ids(m2, nid.value, (d + 1) as nat) =~= ids.insert(nid.value));
            assert forall|p: int| 0 <= p < spec_mbl(layout) implies #[trigger] subtree_byte(
                m2,
                layout,
                nid.value,
                (d + 1) as nat,
                p,
            ) == 0 by {
                crate::tree_model::lemma_byte_in_child(m2, layout, nid.value, (d + 1) as nat, p);
                let mblv = spec_mbl(layout) as int;
                let cap = spec_capacity(layout, d as nat) as int;
                crate::arith::lemma_pow_pos(spec_k(layout), d as nat);
                assert((p / mblv) / cap == 0) by {
                    assert(p / mblv == 0) by {
                        vstd::arithmetic::div_mod::lemma_fundamental_div_mod_converse(
                            p,
                            mblv,
                            0,
                            p,
                        );
                    }
                    vstd::arithmetic::div_mod::lemma_fundamental_div_mod_converse(0, cap, 0, 0);
                }
                assert(0 * (cap * mblv) == 0) by (nonlinear_arith);
                assert(subtree_byte(m2, layout, nid.value, (d + 1) as nat, p) == subtree_byte(
                    m2,
                    layout,
                    cur.value,
                    d as nat,
                    p,
                ));
                lemma_byte_frame(m, m2, layout, cur.value, d as nat, p);
            }
        }
        cur = nid;
        d = d + 1;
    }
    cur
}


/// Whether every leaf of the subtree is full: all-but-the-last are full under
/// left-max-data, so this says the last one is too.
pub open spec fn all_leaves_full(
    m: BlockMap,
    layout: NodeLayout,
    id: u128,
    depth: nat,
) -> bool {
    subtree_num_bytes(m, layout, id, depth) == subtree_num_leaves(m, layout, id, depth) * spec_mbl(
        layout,
    )
}

/// Appends one full zeroed leaf as the subtree's new rightmost leaf, if the
/// subtree has room for another leaf at its depth.
#[verifier::rlimit(100)]
#[verifier::spinoff_prover]
fn add_leaf_rec(ns: &mut DataNodeStore, id: BlockId, depth: u8) -> (added: bool)
    requires
        old(ns).wf(),
        valid_subtree(old(ns)@, old(ns).spec_layout(), id.value, depth as nat),
        lmd_subtree(old(ns)@, old(ns).spec_layout(), id.value, depth as nat),
        all_leaves_full(old(ns)@, old(ns).spec_layout(), id.value, depth as nat),
        subtree_num_bytes(old(ns)@, old(ns).spec_layout(), id.value, depth as nat) <= u64::MAX
            + spec_mbl(old(ns).spec_layout()),
    ensures
        final(ns).wf(),
        final(ns).spec_layout() == old(ns).spec_layout(),
        added <==> subtree_num_leaves(old(ns)@, old(ns).spec_layout(), id.value, depth as nat)
            < spec_capacity(old(ns).spec_layout(), depth as nat),
        !added ==> final(ns)@ == old(ns)@,
        added ==> {
            let m2 = final(ns)@;
            let layout = old(ns).spec_layout();
            &&& valid_subtree(m2, layout, id.value, depth as nat)
            &&& lmd_subtree(m2, layout, id.value, depth as nat)
            &&& all_leaves_full(m2, layout, id.value, depth as nat)
            &&& subtree_num_leaves(m2, layout, id.value, depth as nat) == subtree_num_leaves(
                old(ns)@,
                layout,
                id.value,
                depth as nat,
            ) + 1
            &&& subtree_num_bytes(m2, layout, id.value, depth as nat) == subtree_num_bytes(
                old(ns)@,
                layout,
                id.value,
                depth as nat,
            ) + spec_mbl(layout)
            &&& crate::layout::spec_depth(m2[id.value]) == depth
            &&& (forall|p: int|
                0 <= p < subtree_num_bytes(old(ns)@, layout, id.value, depth as nat)
                    ==> #[trigger] subtree_byte(m2, layout, id.value, depth as nat, p)
                    == subtree_byte(old(ns)@, layout, id.value, depth as nat, p))
            &&& (forall|p: int|
                subtree_num_bytes(old(ns)@, layout, id.value, depth as nat) <= p
                    < subtree_num_bytes(old(ns)@, layout, id.value, depth as nat) + spec_mbl(
                    layout,
                ) ==> #[trigger] subtree_byte(m2, layout, id.value, depth as nat, p) == 0)
            &&& (forall|x: u128|
                #[trigger] subtree_ids(m2, id.value, depth as nat).contains(x) ==> subtree_ids(
                    old(ns)@,
                    id.value,
                    depth as nat,
                ).contains(x) || !(old(ns)@.dom().contains(x)))
            &&& (forall|x: u128|
                #[trigger] subtree_ids(old(ns)@, id.value, depth as nat).contains(x)
                    ==> subtree_ids(m2, id.value, depth as nat).contains(x))
            &&& (forall|x: u128|
                !(#[trigger] subtree_ids(m2, id.value, depth as nat).contains(x)) ==> ((
                m2.dom().contains(x) <==> old(ns)@.dom().contains(x)) && (old(
                    ns,
                )@.dom().contains(x) ==> m2[x] == old(ns)@[x])))
        },
    decreases depth,
{
    let ghost m = ns@;
    let ghost layout = ns.spec_layout();
    let ghost nl = subtree_num_leaves(m, layout, id.value, depth as nat);
    let ghost nb = subtree_num_bytes(m, layout, id.value, depth as nat);
    let ghost mbl = spec_mbl(layout);
    proof {
        ns.lemma_layout_valid();
        lemma_counts(m, layout, id.value, depth as nat);
    }
    if depth == 0 {
        return false;
    }
    let node = match ns.load(id) {
        Ok(Some(DataNode::Inner(inner))) => inner,
        _ => {
            proof {
                assert(false);
            }
            return false;
        },
    };
    let ghost b = m[id.value];
    let ghost cdepth = (depth - 1) as nat;
    let ghost cap = spec_capacity(layout, cdepth);
    let nc = node.num_children();
    let ghost ncm1 = (nc - 1) as nat;
    let k = ns.layout().max_children_per_inner_node();
    let last = node.child(nc - 1);
    let ghost nl_last = subtree_num_leaves(m, layout, last.value, cdepth);
    let ghost nb_last = subtree_num_bytes(m, layout, last.value, cdepth);
    proof {
        crate::arith::lemma_pow_pos(spec_k(layout), cdepth);
        lemma_children_index(m, layout, b, cdepth, nc as nat, nc as int - 1);
        lemma_counts(m, layout, last.value, cdepth);
        assert(nl == ncm1 * cap + nl_last);
        assert(nb == ncm1 * cap * mbl + nb_last);
        assert(nb_last == nl_last * mbl) by (nonlinear_arith)
            requires
                nb == ncm1 * cap * mbl + nb_last,
                nb == nl * mbl,
                nl == ncm1 * cap + nl_last,
        ;
        assert(nb_last <= nb) by (nonlinear_arith)
            requires
                nb == ncm1 * cap * mbl + nb_last,
                ncm1 * cap * mbl >= 0,
        ;
        assert(ncm1 * cap * mbl >= 0) by (nonlinear_arith);
    }
    let child_added = add_leaf_rec(ns, last, depth - 1);
    if child_added {
        let ghost m2 = ns@;
        proof {
            let ids2 = subtree_ids(m2, last.value, cdepth);
            lemma_children_update_general(
                m,
                m2,
                layout,
                b,
                cdepth,
                nc as nat,
                nc as int - 1,
                ids2,
            );
            lemma_ids_contain_self(m, id.value, depth as nat);
            lemma_ids_in_dom(m, layout, id.value, depth as nat);
            assert(!subtree_ids(m, last.value, cdepth).contains(id.value));
            assert(!ids2.contains(id.value));
            assert(m2[id.value] == b);
            assert(valid_subtree(m2, layout, id.value, depth as nat));
            assert(lmd_subtree(m2, layout, id.value, depth as nat)) by {
                crate::tree_model::lemma_children_prefix(m, layout, b, cdepth, ncm1, nc as nat);
                crate::tree_model::lemma_full_children_transfer(m, m2, layout, b, cdepth, ncm1);
            }
            assert(subtree_num_leaves(m2, layout, id.value, depth as nat) == nl + 1);
            assert(subtree_num_bytes(m2, layout, id.value, depth as nat) == nb + mbl);
            assert(all_leaves_full(m2, layout, id.value, depth as nat)) by {
                assert((nl + 1) * mbl == nl * mbl + mbl) by (nonlinear_arith);
            }
            assert(nl < (nc as nat) * cap) by (nonlinear_arith)
                requires
                    nl == ncm1 * cap + nl_last,
                    nl_last < cap,
                    ncm1 + 1 == nc as nat,
            ;
            assert((nc as nat) * cap <= spec_k(layout) * cap) by (nonlinear_arith)
                requires
                    (nc as nat) <= spec_k(layout),
                    cap >= 0,
            ;
            assert(subtree_ids(m2, id.value, depth as nat) =~= children_ids(
                m2,
                b,
                cdepth,
                nc as nat,
            ).insert(id.value));
            // the old bytes read as before, and the new leaf's range as zero
            lemma_counts(m2, layout, id.value, depth as nat);
            assert forall|x: u128|
                #[trigger] children_ids(m, b, cdepth, ncm1).contains(x) implies m2.dom().contains(
                x,
            ) && m2[x] == m[x] by {
                crate::tree_model::lemma_children_prefix(m, layout, b, cdepth, ncm1, nc as nat);
                assert(children_ids(m, b, cdepth, ncm1).disjoint(
                    subtree_ids(m, last.value, cdepth),
                ));
                assert(!subtree_ids(m, last.value, cdepth).contains(x));
                crate::tree_model::lemma_children_ids_in_dom(m, layout, b, cdepth, ncm1);
                assert(!subtree_ids(m2, last.value, cdepth).contains(x));
            }
            assert forall|p: int|
                0 <= p < nb implies #[trigger] subtree_byte(m2, layout, id.value, depth as nat, p)
                == subtree_byte(m, layout, id.value, depth as nat, p) by {
                lemma_last_child_byte_transfer(m, m2, layout, id.value, depth as nat, p);
            }
            assert forall|p: int|
                nb <= p < nb + mbl implies #[trigger] subtree_byte(
                m2,
                layout,
                id.value,
                depth as nat,
                p,
            ) == 0 by {
                let capi = cap as int;
                let mbli = mbl as int;
                crate::tree_model::lemma_byte_in_child(m2, layout, id.value, depth as nat, p);
                let c = (p / mbli) / capi;
                let q = p - c * (capi * mbli);
                assert(p / mbli == nl as int) by {
                    vstd::arithmetic::div_mod::lemma_fundamental_div_mod_converse(
                        p,
                        mbli,
                        nl as int,
                        p - nl as int * mbli,
                    );
                    assert(nl as int * mbli == nl * mbl) by (nonlinear_arith)
                        requires
                            mbli == mbl as int,
                    ;
                }
                assert(c == ncm1 as int) by {
                    vstd::arithmetic::div_mod::lemma_fundamental_div_mod_converse(
                        nl as int,
                        capi,
                        ncm1 as int,
                        nl as int - ncm1 as int * capi,
                    );
                    assert(ncm1 as int * capi == ncm1 * cap) by (nonlinear_arith)
                        requires
                            capi == cap as int,
                    ;
                }
                assert(q == p - ncm1 * cap * mbl) by (nonlinear_arith)
                    requires
                        q == p - c * (capi * mbli),
                        c == ncm1 as int,
                        capi == cap as int,
                        mbli == mbl as int,
                ;
                assert(nb_last <= q < nb_last + mbl) by (nonlinear_arith)
                    requires
                        q == p - ncm1 * cap * mbl,
                        nb <= p < nb + mbl,
                        nb == ncm1 * cap * mbl + nb_last,
                ;
                assert(subtree_byte(m2, layout, last.value, cdepth, q) == 0);
            }
        }
        return true;
    }
    proof {
        assert(nl_last == cap);
    }
    if nc == k {
        proof {
            assert(nl == spec_capacity(layout, depth as nat)) by (nonlinear_arith)
                requires
                    nl == ncm1 * cap + nl_last,
                    nl_last == cap,
                    ncm1 + 1 == spec_k(layout),
                    spec_capacity(layout, depth as nat) == spec_k(layout) * cap,
        ;
        }
        return false;
    }
    append_chain_child(ns, id, depth)
}

/// Appends a fresh one-leaf chain as a new rightmost child of the inner node
/// `id`, whose current last child is complete.
#[verifier::rlimit(100)]
#[verifier::spinoff_prover]
fn append_chain_child(ns: &mut DataNodeStore, id: BlockId, depth: u8) -> (added: bool)
    requires
        old(ns).wf(),
        1 <= depth,
        valid_subtree(old(ns)@, old(ns).spec_layout(), id.value, depth as nat),
        lmd_subtree(old(ns)@, old(ns).spec_layout(), id.value, depth as nat),
        all_leaves_full(old(ns)@, old(ns).spec_layout(), id.value, depth as nat),
        subtree_num_bytes(old(ns)@, old(ns).spec_layout(), id.value, depth as nat) <= u64::MAX
            + spec_mbl(old(ns).spec_layout()),
        crate::layout::spec_size_field(old(ns)@[id.value]) < spec_k(old(ns).spec_layout()),
        subtree_num_leaves(
            old(ns)@,
            old(ns).spec_layout(),
            crate::data_node::spec_child_id(
                old(ns)@[id.value],
                crate::layout::spec_size_field(old(ns)@[id.value]) - 1,
            ),
            (depth - 1) as nat,
        ) == spec_capacity(old(ns).spec_layout(), (depth - 1) as nat),
    ensures
        final(ns).wf(),
        final(ns).spec_layout() == old(ns).spec_layout(),
        added,
        subtree_num_leaves(old(ns)@, old(ns).spec_layout(), id.value, depth as nat)
            < spec_capacity(old(ns).spec_layout(), depth as nat),
        ({
            let m2 = final(ns)@;
            let layout = old(ns).spec_layout();
            &&& valid_subtree(m2, layout, id.value, depth as nat)
            &&& lmd_subtree(m2, layout, id.value, depth as nat)
            &&& all_leaves_full(m2, layout, id.value, depth as nat)
            &&& subtree_num_leaves(m2, layout, id.value, depth as nat) == subtree_num_leaves(
                old(ns)@,
                layout,
                id.value,
                depth as nat,
            ) + 1
            &&& subtree_num_bytes(m2, layout, id.value, depth as nat) == subtree_num_bytes(
                old(ns)@,
                layout,
                id.value,
                depth as nat,
            ) + spec_mbl(layout)
            &&& crate::layout::spec_depth(m2[id.value]) == depth
            &&& (forall|p: int|
                0 <= p < subtree_num_bytes(old(ns)@, layout, id.value, depth as nat)
                    ==> #[trigger] subtree_byte(m2, layout, id.value, depth as nat, p)
                    == subtree_byte(old(ns)@, layout, id.value, depth as nat, p))
            &&& (forall|p: int|
                subtree_num_bytes(old(ns)@, layout, id.value, depth as nat) <= p
                    < subtree_num_bytes(old(ns)@, layout, id.value, depth as nat) + spec_mbl(
                    layout,
                ) ==> #[trigger] subtree_byte(m2, layout, id.value, depth as nat, p) == 0)
            &&& (forall|x: u128|
                #[trigger] subtree_ids(m2, id.value, depth as nat).contains(x) ==> subtree_ids(
                    old(ns)@,
                    id.value,
                    depth as nat,
                ).contains(x) || !(old(ns)@.dom().contains(x)))
            &&& (forall|x: u128|
                #[trigger] subtree_ids(old(ns)@, id.value, depth as nat).contains(x)
                    ==> subtree_ids(m2, id.value, depth as nat).contains(x))
            &&& (forall|x: u128|
                !(#[trigger] subtree_ids(m2, id.value, depth as nat).contains(x)) ==> ((
                m2.dom().contains(x) <==> old(ns)@.dom().contains(x)) && (old(
                    ns,
                )@.dom().contains(x) ==> m2[x] == old(ns)@[x])))
        }),
{
    let ghost m = ns@;
    let ghost layout = ns.spec_layout();
    let ghost nl = subtree_num_leaves(m, layout, id.value, depth as nat);
    let ghost nb = subtree_num_bytes(m, layout, id.value, depth as nat);
    let ghost mbl = spec_mbl(layout);
    proof {
        ns.lemma_layout_valid();
        lemma_counts(m, layout, id.value, depth as nat);
    }
    let node = match ns.load(id) {
        Ok(Some(DataNode::Inner(inner))) => inner,
        _ => {
            proof {
                assert(false);
            }
            return false;
        },
    };
    let ghost b = m[id.value];
    let ghost cdepth = (depth - 1) as nat;
    let ghost cap = spec_capacity(layout, cdepth);
    let nc = node.num_children();
    let ghost ncm1 = (nc - 1) as nat;
    let last = node.child(nc - 1);
    let ghost nl_last = subtree_num_leaves(m, layout, last.value, cdepth);
    let ghost nb_last = subtree_num_bytes(m, layout, last.value, cdepth);
    proof {
        crate::arith::lemma_pow_pos(spec_k(layout), cdepth);
        lemma_children_index(m, layout, b, cdepth, nc as nat, nc as int - 1);
        lemma_counts(m, layout, last.value, cdepth);
        assert(nl == ncm1 * cap + nl_last);
        assert(nb == ncm1 * cap * mbl + nb_last);
        assert(nb_last == nl_last * mbl) by (nonlinear_arith)
            requires
                nb == ncm1 * cap * mbl + nb_last,
                nb == nl * mbl,
                nl == ncm1 * cap + nl_last,
        ;
        assert(nl_last == cap);
    }
    let chain = new_chain(ns, depth - 1);
    let ghost m1 = ns@;
    let ghost chain_ids = subtree_ids(m1, chain.value, cdepth);
    let mut children = node.children();
    children.push(chain);
    proof {
        lemma_ids_in_dom(m, layout, id.value, depth as nat);
        lemma_ids_contain_self(m, id.value, depth as nat);
    }
    ns.overwrite_inner(id, depth, &children);
    let ghost m2 = ns@;
    proof {
        let b2 = m2[id.value];
        assert(forall|i: int| 0 <= i < nc ==> children@[i].value == crate::data_node::spec_child_id(
            b,
            i,
        )) by {
            assert forall|i: int| 0 <= i < nc implies children@[i].value
                == crate::data_node::spec_child_id(b, i) by {
                assert(children@[i].value == node.spec_child(i));
            }
        }
        assert(children@[nc as int] == chain);
        lemma_append_chain(
            m,
            m1,
            m2,
            layout,
            id.value,
            depth as nat,
            chain.value,
            b,
            b2,
            nc as nat,
        );
    }
    true
}

/// Hanging a fresh complete-leaf chain as the new last child of an inner node
/// whose last child is complete keeps the tree well formed and adds one leaf.
#[verifier::rlimit(100)]
#[verifier::spinoff_prover]
proof fn lemma_append_chain(
    m: BlockMap,
    m1: BlockMap,
    m2: BlockMap,
    layout: NodeLayout,
    id: u128,
    depth: nat,
    chain: u128,
    b: Seq<u8>,
    b2: Seq<u8>,
    nc: nat,
)
    requires
        layout.valid(),
        depth >= 1,
        valid_subtree(m, layout, id, depth),
        lmd_subtree(m, layout, id, depth),
        all_leaves_full(m, layout, id, depth),
        b == m[id],
        nc == crate::layout::spec_size_field(b),
        nc < spec_k(layout),
        subtree_num_leaves(
            m,
            layout,
            crate::data_node::spec_child_id(b, nc - 1),
            (depth - 1) as nat,
        ) == spec_capacity(layout, (depth - 1) as nat),
        valid_subtree(m1, layout, chain, (depth - 1) as nat),
        lmd_subtree(m1, layout, chain, (depth - 1) as nat),
        subtree_num_leaves(m1, layout, chain, (depth - 1) as nat) == 1,
        subtree_num_bytes(m1, layout, chain, (depth - 1) as nat) == spec_mbl(layout),
        forall|q: int|
            0 <= q < spec_mbl(layout) ==> #[trigger] subtree_byte(
                m1,
                layout,
                chain,
                (depth - 1) as nat,
                q,
            ) == 0,
        subtree_num_bytes(m, layout, id, depth) <= u64::MAX + spec_mbl(layout),
        forall|x: u128|
            #[trigger] subtree_ids(m1, chain, (depth - 1) as nat).contains(x) ==> !(
            m.dom().contains(x)),
        forall|x: u128|
            !(#[trigger] subtree_ids(m1, chain, (depth - 1) as nat).contains(x)) ==> ((
            m1.dom().contains(x) <==> m.dom().contains(x)) && (m.dom().contains(x) ==> m1[x]
                == m[x])),
        m2 == m1.insert(id, b2),
        crate::data_node::is_inner_bytes(layout, b2),
        crate::layout::spec_depth(b2) == depth,
        crate::layout::spec_size_field(b2) == nc + 1,
        forall|i: int| 0 <= i < nc ==> crate::data_node::spec_child_id(b2, i)
            == crate::data_node::spec_child_id(b, i),
        crate::data_node::spec_child_id(b2, nc as int) == chain,
    ensures
        valid_subtree(m2, layout, id, depth),
        lmd_subtree(m2, layout, id, depth),
        all_leaves_full(m2, layout, id, depth),
        subtree_num_leaves(m2, layout, id, depth) == subtree_num_leaves(m, layout, id, depth) + 1,
        subtree_num_bytes(m2, layout, id, depth) == subtree_num_bytes(m, layout, id, depth)
            + spec_mbl(layout),
        crate::layout::spec_depth(m2[id]) == depth,
        subtree_num_leaves(m, layout, id, depth) < spec_capacity(layout, depth),
        forall|p: int|
            0 <= p < subtree_num_bytes(m, layout, id, depth) ==> #[trigger] subtree_byte(
                m2,
                layout,
                id,
                depth,
                p,
            ) == subtree_byte(m, layout, id, depth, p),
        forall|p: int|
            subtree_num_bytes(m, layout, id, depth) <= p < subtree_num_bytes(m, layout, id, depth)
                + spec_mbl(layout) ==> #[trigger] subtree_byte(m2, layout, id, depth, p) == 0,
        forall|x: u128|
            #[trigger] subtree_ids(m2, id, depth).contains(x) ==> subtree_ids(
                m,
                id,
                depth,
            ).contains(x) || !(m.dom().contains(x)),
        forall|x: u128|
            #[trigger] subtree_ids(m, id, depth).contains(x) ==> subtree_ids(
                m2,
                id,
                depth,
            ).contains(x),
        forall|x: u128|
            !(#[trigger] subtree_ids(m2, id, depth).contains(x)) ==> ((m2.dom().contains(x) <==>
            m.dom().contains(x)) && (m.dom().contains(x) ==> m2[x] == m[x])),
{
    let cdepth = (depth - 1) as nat;
    let chain_ids = subtree_ids(m1, chain, cdepth);
    lemma_append_chain_structure(m, m1, m2, layout, id, depth, chain, b, b2, nc);
    lemma_ids_in_dom(m, layout, id, depth);
    lemma_append_chain_counts(m, m2, layout, id, depth, chain, b, b2, nc);
    lemma_append_chain_bytes(m, m1, m2, layout, id, depth, chain, b, b2, nc);
    assert forall|x: u128| #[trigger] subtree_ids(m2, id, depth).contains(x) implies subtree_ids(
        m,
        id,
        depth,
    ).contains(x) || !(m.dom().contains(x)) by {
        if chain_ids.contains(x) {
        }
    }
    assert forall|x: u128|
        !(#[trigger] subtree_ids(m2, id, depth).contains(x)) implies ((m2.dom().contains(x) <==>
    m.dom().contains(x)) && (m.dom().contains(x) ==> m2[x] == m[x])) by {
        assert(!chain_ids.contains(x));
        assert(x != id);
        assert(m2[x] == m1[x] || !m1.dom().contains(x)) by {
            if m1.dom().contains(x) && x != id {
                assert(m2 == m1.insert(id, b2));
            }
        }
    }
    assert(subtree_ids(m2, id, depth) =~= subtree_ids(m, id, depth).union(chain_ids));
}


/// The byte view of appending a chain: every old byte reads as before, and
/// the appended leaf's range reads as zero.
#[verifier::rlimit(100)]
#[verifier::spinoff_prover]
proof fn lemma_append_chain_bytes(
    m: BlockMap,
    m1: BlockMap,
    m2: BlockMap,
    layout: NodeLayout,
    id: u128,
    depth: nat,
    chain: u128,
    b: Seq<u8>,
    b2: Seq<u8>,
    nc: nat,
)
    requires
        layout.valid(),
        depth >= 1,
        valid_subtree(m, layout, id, depth),
        lmd_subtree(m, layout, id, depth),
        all_leaves_full(m, layout, id, depth),
        subtree_num_bytes(m, layout, id, depth) <= u64::MAX + spec_mbl(layout),
        b == m[id],
        nc == crate::layout::spec_size_field(b),
        nc < spec_k(layout),
        subtree_num_leaves(
            m,
            layout,
            crate::data_node::spec_child_id(b, nc - 1),
            (depth - 1) as nat,
        ) == spec_capacity(layout, (depth - 1) as nat),
        valid_subtree(m1, layout, chain, (depth - 1) as nat),
        lmd_subtree(m1, layout, chain, (depth - 1) as nat),
        subtree_num_bytes(m1, layout, chain, (depth - 1) as nat) == spec_mbl(layout),
        forall|q: int|
            0 <= q < spec_mbl(layout) ==> #[trigger] subtree_byte(
                m1,
                layout,
                chain,
                (depth - 1) as nat,
                q,
            ) == 0,
        forall|x: u128|
            #[trigger] subtree_ids(m1, chain, (depth - 1) as nat).contains(x) ==> !(
            m.dom().contains(x)),
        forall|x: u128|
            !(#[trigger] subtree_ids(m1, chain, (depth - 1) as nat).contains(x)) ==> ((
            m1.dom().contains(x) <==> m.dom().contains(x)) && (m.dom().contains(x) ==> m1[x]
                == m[x])),
        m2 == m1.insert(id, b2),
        valid_subtree(m2, layout, id, depth),
        lmd_subtree(m2, layout, id, depth),
        subtree_num_bytes(m2, layout, id, depth) == subtree_num_bytes(m, layout, id, depth)
            + spec_mbl(layout),
        crate::layout::spec_size_field(b2) == nc + 1,
        m2[id] == b2,
        forall|i: int| 0 <= i < nc ==> crate::data_node::spec_child_id(b2, i)
            == crate::data_node::spec_child_id(b, i),
        crate::data_node::spec_child_id(b2, nc as int) == chain,
    ensures
        forall|p: int|
            0 <= p < subtree_num_bytes(m, layout, id, depth) ==> #[trigger] subtree_byte(
                m2,
                layout,
                id,
                depth,
                p,
            ) == subtree_byte(m, layout, id, depth, p),
        forall|p: int|
            subtree_num_bytes(m, layout, id, depth) <= p < subtree_num_bytes(m, layout, id, depth)
                + spec_mbl(layout) ==> #[trigger] subtree_byte(m2, layout, id, depth, p) == 0,
{
    let cdepth = (depth - 1) as nat;
    let cap = spec_capacity(layout, cdepth);
    let mbl = spec_mbl(layout);
    let capi = cap as int;
    let mbli = mbl as int;
    let ncm1 = (nc - 1) as nat;
    let nl = subtree_num_leaves(m, layout, id, depth);
    let nb = subtree_num_bytes(m, layout, id, depth);
    let last = crate::data_node::spec_child_id(b, nc - 1);
    let chain_ids = subtree_ids(m1, chain, cdepth);
    crate::arith::lemma_pow_pos(spec_k(layout), cdepth);
    lemma_counts(m, layout, id, depth);
    lemma_children_index(m, layout, b, cdepth, nc, nc as int - 1);
    lemma_counts(m, layout, last, cdepth);
    lemma_ids_in_dom(m, layout, id, depth);
    lemma_ids_contain_self(m, id, depth);
    let nl_last = subtree_num_leaves(m, layout, last, cdepth);
    let nb_last = subtree_num_bytes(m, layout, last, cdepth);
    assert(nl == ncm1 * cap + nl_last);
    assert(nb == ncm1 * cap * mbl + nb_last);
    assert(nl == nc * cap) by (nonlinear_arith)
        requires
            nl == ncm1 * cap + nl_last,
            nl_last == cap,
            ncm1 + 1 == nc,
    ;
    // the chain's blocks are untouched by the parent rewrite
    assert forall|x: u128| #[trigger] chain_ids.contains(x) implies m2.dom().contains(x) && m2[x]
        == m1[x] by {
        crate::tree_model::lemma_ids_in_dom(m1, layout, chain, cdepth);
        assert(x != id);
    }
    assert(agrees_on(m1, m2, chain_ids));
    assert forall|p: int|
        0 <= p < nb implies #[trigger] subtree_byte(m2, layout, id, depth, p) == subtree_byte(
        m,
        layout,
        id,
        depth,
        p,
    ) by {
        crate::tree_model::lemma_byte_in_child(m, layout, id, depth, p);
        crate::tree_model::lemma_byte_in_child(m2, layout, id, depth, p);
        let c = (p / mbli) / capi;
        let q = p - c * (capi * mbli);
        let ch = crate::data_node::spec_child_id(b, c);
        assert(c < nc) by {
            assert(nb <= nl * mbl);
            assert(nl * mbl == mbli * (capi * (nc as int))) by (nonlinear_arith)
                requires
                    nl == nc * cap,
                    mbli == mbl as int,
                    capi == cap as int,
            ;
            vstd::arithmetic::div_mod::lemma_multiply_divide_lt(p, mbli, capi * (nc as int));
            vstd::arithmetic::div_mod::lemma_multiply_divide_lt(p / mbli, capi, nc as int);
        }
        assert(crate::data_node::spec_child_id(b2, c) == ch);
        lemma_children_index(m, layout, b, cdepth, nc, c);
        if c < nc - 1 {
            lemma_children_index(m, layout, b, cdepth, ncm1, c);
            lemma_full_props(m, layout, ch, cdepth);
        }
        assert forall|x: u128| #[trigger] subtree_ids(m, ch, cdepth).contains(
            x,
        ) implies m2.dom().contains(x) && m2[x] == m[x] by {
            lemma_ids_in_dom(m, layout, ch, cdepth);
            assert(!chain_ids.contains(x));
            crate::tree_model::lemma_child_ids_subset(m, b, cdepth, c, nc);
            assert(x != id);
        }
        assert(agrees_on(m, m2, subtree_ids(m, ch, cdepth)));
        assert(subtree_num_bytes(m, layout, ch, cdepth) <= u64::MAX + spec_mbl(layout)) by {
            if c < nc - 1 {
                assert(subtree_num_bytes(m, layout, ch, cdepth) == cap * mbl);
                assert(cap * mbl <= ncm1 * cap * mbl) by (nonlinear_arith)
                    requires
                        ncm1 >= 1,
                        cap >= 0,
                        mbl >= 0,
                ;
                assert(ncm1 * cap * mbl <= nb) by (nonlinear_arith)
                    requires
                        nb == ncm1 * cap * mbl + nb_last,
                        nb_last >= 0,
                ;
            } else {
                assert(nb_last <= nb) by (nonlinear_arith)
                    requires
                        nb == ncm1 * cap * mbl + nb_last,
                        ncm1 * cap * mbl >= 0,
                ;
                assert(ncm1 * cap * mbl >= 0) by (nonlinear_arith);
            }
        }
        lemma_byte_frame(m, m2, layout, ch, cdepth, q);
    }
    assert forall|p: int|
        nb <= p < nb + mbl implies #[trigger] subtree_byte(m2, layout, id, depth, p) == 0 by {
        crate::tree_model::lemma_byte_in_child(m2, layout, id, depth, p);
        let c = (p / mbli) / capi;
        let q = p - c * (capi * mbli);
        assert(p / mbli == nl as int) by {
            vstd::arithmetic::div_mod::lemma_fundamental_div_mod_converse(
                p,
                mbli,
                nl as int,
                p - nl as int * mbli,
            );
            assert(nl as int * mbli == nl * mbl) by (nonlinear_arith)
                requires
                    mbli == mbl as int,
            ;
            assert(nb == nl * mbl);
        }
        assert(c == nc as int) by {
            vstd::arithmetic::div_mod::lemma_fundamental_div_mod_converse(
                nl as int,
                capi,
                nc as int,
                0,
            );
            assert(nc as int * capi == nc * cap) by (nonlinear_arith)
                requires
                    capi == cap as int,
            ;
        }
        assert(crate::data_node::spec_child_id(b2, c) == chain);
        assert(0 <= q < mbl) by (nonlinear_arith)
            requires
                q == p - c * (capi * mbli),
                c == nc as int,
                nb <= p < nb + mbl,
                nb == nl * mbl,
                nl == nc * cap,
                capi == cap as int,
                mbli == mbl as int,
        ;
        assert(subtree_byte(m2, layout, chain, cdepth, q) == subtree_byte(
            m1,
            layout,
            chain,
            cdepth,
            q,
        )) by {
            lemma_byte_frame(m1, m2, layout, chain, cdepth, q);
        }
    }
}

/// The counting part of appending a chain: one more leaf, one leaf's worth of
/// bytes more, still all full, still within the parent's capacity.
#[verifier::rlimit(100)]
#[verifier::spinoff_prover]
proof fn lemma_append_chain_counts(
    m: BlockMap,
    m2: BlockMap,
    layout: NodeLayout,
    id: u128,
    depth: nat,
    chain: u128,
    b: Seq<u8>,
    b2: Seq<u8>,
    nc: nat,
)
    requires
        layout.valid(),
        depth >= 1,
        valid_subtree(m, layout, id, depth),
        lmd_subtree(m, layout, id, depth),
        all_leaves_full(m, layout, id, depth),
        b == m[id],
        nc == crate::layout::spec_size_field(b),
        nc < spec_k(layout),
        m2[id] == b2,
        crate::layout::spec_size_field(b2) == nc + 1,
        forall|i: int| 0 <= i < nc ==> crate::data_node::spec_child_id(b2, i)
            == crate::data_node::spec_child_id(b, i),
        crate::data_node::spec_child_id(b2, nc as int) == chain,
        subtree_num_leaves(m2, layout, chain, (depth - 1) as nat) == 1,
        subtree_num_bytes(m2, layout, chain, (depth - 1) as nat) == spec_mbl(layout),
        subtree_num_leaves(
            m,
            layout,
            crate::data_node::spec_child_id(b, nc - 1),
            (depth - 1) as nat,
        ) == spec_capacity(layout, (depth - 1) as nat),
    ensures
        subtree_num_leaves(m2, layout, id, depth) == subtree_num_leaves(m, layout, id, depth) + 1,
        subtree_num_bytes(m2, layout, id, depth) == subtree_num_bytes(m, layout, id, depth)
            + spec_mbl(layout),
        all_leaves_full(m2, layout, id, depth),
        subtree_num_leaves(m, layout, id, depth) < spec_capacity(layout, depth),
{
    let cdepth = (depth - 1) as nat;
    let cap = spec_capacity(layout, cdepth);
    let mbl = spec_mbl(layout);
    let ncm1 = (nc - 1) as nat;
    let nl = subtree_num_leaves(m, layout, id, depth);
    let nb = subtree_num_bytes(m, layout, id, depth);
    let last = crate::data_node::spec_child_id(b, nc - 1);
    crate::arith::lemma_pow_pos(spec_k(layout), cdepth);
    lemma_children_index(m, layout, b, cdepth, nc, nc as int - 1);
    lemma_counts(m, layout, last, cdepth);
    let nl_last = subtree_num_leaves(m, layout, last, cdepth);
    let nb_last = subtree_num_bytes(m, layout, last, cdepth);
    assert(nl == ncm1 * cap + nl_last);
    assert(nb == ncm1 * cap * mbl + nb_last);
    assert(nl_last == cap);
    assert(nb_last == nl_last * mbl) by (nonlinear_arith)
        requires
            nb == ncm1 * cap * mbl + nb_last,
            nb == nl * mbl,
            nl == ncm1 * cap + nl_last,
    ;
    assert(subtree_num_leaves(m2, layout, id, depth) == nl + 1) by {
        assert(subtree_num_leaves(m2, layout, chain, cdepth) == 1);
        assert((((nc + 1) - 1) as nat) * cap == ncm1 * cap + cap) by (nonlinear_arith)
            requires
                ncm1 + 1 == nc,
        ;
    }
    assert(subtree_num_bytes(m2, layout, id, depth) == nb + mbl) by {
        assert((((nc + 1) - 1) as nat) * cap * mbl == ncm1 * cap * mbl + cap * mbl)
            by (nonlinear_arith)
            requires
                ncm1 + 1 == nc,
        ;
        assert(nb_last == cap * mbl) by (nonlinear_arith)
            requires
                nb_last == nl_last * mbl,
                nl_last == cap,
        ;
    }
    assert(all_leaves_full(m2, layout, id, depth)) by {
        assert((nl + 1) * mbl == nl * mbl + mbl) by (nonlinear_arith);
    }
    assert(nl < spec_capacity(layout, depth)) by (nonlinear_arith)
        requires
            nl == ncm1 * cap + nl_last,
            nl_last == cap,
            ncm1 + 1 == nc,
            nc < spec_k(layout),
            spec_capacity(layout, depth) == spec_k(layout) * cap,
            cap >= 1,
    ;
}


/// The structural part of appending a chain: the rewritten parent is a valid
/// left-max-data subtree whose ids are the old ones plus the chain's.
#[verifier::rlimit(100)]
#[verifier::spinoff_prover]
proof fn lemma_append_chain_structure(
    m: BlockMap,
    m1: BlockMap,
    m2: BlockMap,
    layout: NodeLayout,
    id: u128,
    depth: nat,
    chain: u128,
    b: Seq<u8>,
    b2: Seq<u8>,
    nc: nat,
)
    requires
        layout.valid(),
        depth >= 1,
        valid_subtree(m, layout, id, depth),
        lmd_subtree(m, layout, id, depth),
        all_leaves_full(m, layout, id, depth),
        b == m[id],
        nc == crate::layout::spec_size_field(b),
        nc < spec_k(layout),
        subtree_num_leaves(
            m,
            layout,
            crate::data_node::spec_child_id(b, nc - 1),
            (depth - 1) as nat,
        ) == spec_capacity(layout, (depth - 1) as nat),
        valid_subtree(m1, layout, chain, (depth - 1) as nat),
        lmd_subtree(m1, layout, chain, (depth - 1) as nat),
        subtree_num_leaves(m1, layout, chain, (depth - 1) as nat) == 1,
        subtree_num_bytes(m1, layout, chain, (depth - 1) as nat) == spec_mbl(layout),
        forall|x: u128|
            #[trigger] subtree_ids(m1, chain, (depth - 1) as nat).contains(x) ==> !(
            m.dom().contains(x)),
        forall|x: u128|
            !(#[trigger] subtree_ids(m1, chain, (depth - 1) as nat).contains(x)) ==> ((
            m1.dom().contains(x) <==> m.dom().contains(x)) && (m.dom().contains(x) ==> m1[x]
                == m[x])),
        m2 == m1.insert(id, b2),
        crate::data_node::is_inner_bytes(layout, b2),
        crate::layout::spec_depth(b2) == depth,
        crate::layout::spec_size_field(b2) == nc + 1,
        forall|i: int| 0 <= i < nc ==> crate::data_node::spec_child_id(b2, i)
            == crate::data_node::spec_child_id(b, i),
        crate::data_node::spec_child_id(b2, nc as int) == chain,
    ensures
        valid_subtree(m2, layout, id, depth),
        lmd_subtree(m2, layout, id, depth),
        crate::layout::spec_depth(m2[id]) == depth,
        subtree_ids(m2, id, depth) == subtree_ids(m, id, depth).union(
            subtree_ids(m1, chain, (depth - 1) as nat),
        ),
        subtree_num_leaves(m2, layout, chain, (depth - 1) as nat) == 1,
        subtree_num_bytes(m2, layout, chain, (depth - 1) as nat) == spec_mbl(layout),
{
    let cdepth = (depth - 1) as nat;
    let cap = spec_capacity(layout, cdepth);
    let mbl = spec_mbl(layout);
    let ncm1 = (nc - 1) as nat;
    let last = crate::data_node::spec_child_id(b, nc - 1);
    let chain_ids = subtree_ids(m1, chain, cdepth);
    crate::arith::lemma_pow_pos(spec_k(layout), cdepth);
    lemma_children_index(m, layout, b, cdepth, nc, nc as int - 1);
    lemma_counts(m, layout, last, cdepth);
    let nl = subtree_num_leaves(m, layout, id, depth);
    let nb = subtree_num_bytes(m, layout, id, depth);
    let nl_last = subtree_num_leaves(m, layout, last, cdepth);
    let nb_last = subtree_num_bytes(m, layout, last, cdepth);
    assert(nl == ncm1 * cap + nl_last);
    assert(nb == ncm1 * cap * mbl + nb_last);
    assert(nb_last == nl_last * mbl) by (nonlinear_arith)
        requires
            nb == ncm1 * cap * mbl + nb_last,
            nb == nl * mbl,
            nl == ncm1 * cap + nl_last,
    ;
    lemma_ids_in_dom(m, layout, id, depth);
    lemma_ids_contain_self(m, id, depth);
    let cids = children_ids(m, b, cdepth, nc);
    assert forall|x: u128| #[trigger] cids.contains(x) implies m2.dom().contains(x) && m2[x]
        == m[x] by {
        crate::tree_model::lemma_children_ids_in_dom(m, layout, b, cdepth, nc);
        assert(!chain_ids.contains(x));
        assert(subtree_ids(m, id, depth).contains(x));
        assert(x != id);
    }
    assert(crate::tree_model::agrees_on(m, m2, cids));
    crate::tree_model::lemma_frame_children(m, m2, layout, b, cdepth, nc);
    crate::tree_model::lemma_children_same_prefix(m2, layout, b, b2, cdepth, nc);
    assert(chain_ids.disjoint(cids.insert(id))) by {
        assert forall|x: u128| #[trigger] chain_ids.contains(x) implies !cids.insert(id).contains(
            x,
        ) by {
            crate::tree_model::lemma_children_ids_in_dom(m, layout, b, cdepth, nc);
        }
    }
    assert forall|x: u128| #[trigger] chain_ids.contains(x) implies m2.dom().contains(x) && m2[x]
        == m1[x] by {
        crate::tree_model::lemma_ids_in_dom(m1, layout, chain, cdepth);
        assert(x != id);
    }
    assert(crate::tree_model::agrees_on(m1, m2, chain_ids));
    lemma_frame(m1, m2, layout, chain, cdepth);
    assert(valid_children(m2, layout, b2, cdepth, (nc + 1) as nat));
    assert(children_disjoint(m2, b2, cdepth, (nc + 1) as nat)) by {
        assert(children_ids(m2, b2, cdepth, nc) == cids);
        assert(subtree_ids(m2, chain, cdepth) == chain_ids);
    }
    assert(!children_ids(m2, b2, cdepth, (nc + 1) as nat).contains(id)) by {
        assert(children_ids(m2, b2, cdepth, (nc + 1) as nat) =~= cids.union(chain_ids));
    }
    assert(valid_subtree(m2, layout, id, depth));
    assert(lmd_subtree(m2, layout, id, depth)) by {
        crate::tree_model::lemma_full_from_counts(m, layout, last, cdepth);
        assert(full_children(m, layout, b, cdepth, ncm1));
        assert(full_children(m, layout, b, cdepth, nc));
        assert(full_children(m2, layout, b2, cdepth, nc));
        assert(lmd_subtree(m2, layout, chain, cdepth));
    }
    assert(subtree_ids(m2, id, depth) =~= subtree_ids(m, id, depth).union(chain_ids));
}


/// Lifts the root one level: the root's contents move to a fresh block, and
/// the root block becomes an inner node with that block as its only child.
/// The root id, the leaves and the blob stay as they were.
#[verifier::rlimit(100)]
#[verifier::spinoff_prover]
fn lift_root(ns: &mut DataNodeStore, id: BlockId, depth: u8)
    requires
        old(ns).wf(),
        depth < crate::layout::MAX_DEPTH,
        valid_subtree(old(ns)@, old(ns).spec_layout(), id.value, depth as nat),
        lmd_subtree(old(ns)@, old(ns).spec_layout(), id.value, depth as nat),
        subtree_num_bytes(old(ns)@, old(ns).spec_layout(), id.value, depth as nat) <= u64::MAX
            + spec_mbl(old(ns).spec_layout()),
    ensures
        final(ns).wf(),
        final(ns).spec_layout() == old(ns).spec_layout(),
        ({
            let m2 = final(ns)@;
            let layout = old(ns).spec_layout();
            let d2 = (depth + 1) as nat;
            &&& valid_subtree(m2, layout, id.value, d2)
            &&& lmd_subtree(m2, layout, id.value, d2)
            &&& crate::layout::spec_depth(m2[id.value]) == depth + 1
            &&& subtree_num_leaves(m2, layout, id.value, d2) == subtree_num_leaves(
                old(ns)@,
                layout,
                id.value,
                depth as nat,
            )
            &&& subtree_num_bytes(m2, layout, id.value, d2) == subtree_num_bytes(
                old(ns)@,
                layout,
                id.value,
                depth as nat,
            )
            &&& (all_leaves_full(old(ns)@, layout, id.value, depth as nat) ==> all_leaves_full(
                m2,
                layout,
                id.value,
                d2,
            ))
            &&& (forall|p: int|
                0 <= p < subtree_num_bytes(old(ns)@, layout, id.value, depth as nat)
                    ==> #[trigger] subtree_byte(m2, layout, id.value, d2, p) == subtree_byte(
                    old(ns)@,
                    layout,
                    id.value,
                    depth as nat,
                    p,
                ))
            &&& (forall|x: u128|
                #[trigger] subtree_ids(m2, id.value, d2).contains(x) ==> subtree_ids(
                    old(ns)@,
                    id.value,
                    depth as nat,
                ).contains(x) || !(old(ns)@.dom().contains(x)))
            &&& (forall|x: u128|
                #[trigger] subtree_ids(old(ns)@, id.value, depth as nat).contains(x)
                    ==> subtree_ids(m2, id.value, d2).contains(x))
            &&& (forall|x: u128|
                !(#[trigger] subtree_ids(m2, id.value, d2).contains(x)) ==> ((m2.dom().contains(
                    x,
                ) <==> old(ns)@.dom().contains(x)) && (old(ns)@.dom().contains(x) ==> m2[x]
                    == old(ns)@[x])))
        }),
{
    let ghost m = ns@;
    let ghost layout = ns.spec_layout();
    let ghost ids = subtree_ids(m, id.value, depth as nat);
    proof {
        ns.lemma_layout_valid();
        lemma_ids_in_dom(m, layout, id.value, depth as nat);
        lemma_ids_contain_self(m, id.value, depth as nat);
        lemma_counts(m, layout, id.value, depth as nat);
    }
    let root_block = match ns.load(id) {
        Ok(Some(DataNode::Leaf(l))) => {
            let b = vstd::slice::slice_to_vec(l.raw_blockdata().as_slice());
            b
        },
        Ok(Some(DataNode::Inner(i))) => {
            let b = vstd::slice::slice_to_vec(i.raw_blockdata().as_slice());
            b
        },
        _ => {
            proof {
                assert(false);
            }
            Vec::new()
        },
    };
    let fresh = ns.create_raw(root_block);
    let ghost m1 = ns@;
    proof {
        assert(m1 == m.insert(fresh.value, m[id.value]));
        assert forall|x: u128| #[trigger] ids.contains(x) && x != id.value implies m1.dom().contains(
            x,
        ) && m1[x] == m[x] by {
            assert(x != fresh.value);
        }
        crate::tree_model::lemma_relocate(m, m1, layout, id.value, fresh.value, depth as nat);
    }
    let mut children: Vec<BlockId> = Vec::new();
    children.push(fresh);
    ns.overwrite_inner(id, depth + 1, &children);
    let ghost m2 = ns@;
    proof {
        let b2 = m2[id.value];
        assert(m2 == m1.insert(id.value, b2));
        assert(children@[0] == fresh);
        assert(crate::data_node::spec_child_id(b2, 0) == fresh.value);
        let fids = subtree_ids(m1, fresh.value, depth as nat);
        assert(fids =~= ids.remove(id.value).insert(fresh.value));
        assert(!fids.contains(id.value));
        assert forall|x: u128| #[trigger] fids.contains(x) implies m2.dom().contains(x) && m2[x]
            == m1[x] by {
            crate::tree_model::lemma_ids_in_dom(m1, layout, fresh.value, depth as nat);
        }
        assert(crate::tree_model::agrees_on(m1, m2, fids));
        lemma_frame(m1, m2, layout, fresh.value, depth as nat);
        let d2 = (depth + 1) as nat;
        assert(valid_children(m2, layout, b2, depth as nat, 0));
        assert(valid_children(m2, layout, b2, depth as nat, 1));
        assert(children_disjoint(m2, b2, depth as nat, 0));
        assert(children_ids(m2, b2, depth as nat, 0) =~= Set::<u128>::empty());
        assert(children_disjoint(m2, b2, depth as nat, 1));
        assert(children_ids(m2, b2, depth as nat, 1) =~= subtree_ids(
            m2,
            fresh.value,
            depth as nat,
        ));
        assert(valid_subtree(m2, layout, id.value, d2));
        assert(lmd_subtree(m2, layout, id.value, d2)) by {
            assert(full_children(m2, layout, b2, depth as nat, 0));
        }
        let cap = spec_capacity(layout, depth as nat);
        assert(subtree_num_leaves(m2, layout, id.value, d2) == subtree_num_leaves(
            m,
            layout,
            id.value,
            depth as nat,
        )) by {
            assert(((1 - 1) as nat) * cap == 0) by (nonlinear_arith);
        }
        assert(subtree_num_bytes(m2, layout, id.value, d2) == subtree_num_bytes(
            m,
            layout,
            id.value,
            depth as nat,
        )) by {
            assert(((1 - 1) as nat) * cap * spec_mbl(layout) == 0) by (nonlinear_arith);
        }
        assert(subtree_ids(m2, id.value, d2) =~= ids.insert(fresh.value));
        let nb = subtree_num_bytes(m, layout, id.value, depth as nat);
        assert forall|p: int| 0 <= p < nb implies #[trigger] subtree_byte(
            m2,
            layout,
            id.value,
            d2,
            p,
        ) == subtree_byte(m, layout, id.value, depth as nat, p) by {
            lemma_counts(m2, layout, id.value, d2);
            crate::tree_model::lemma_byte_in_child(m2, layout, id.value, d2, p);
            let mbli = spec_mbl(layout) as int;
            let capi = spec_capacity(layout, depth as nat) as int;
            crate::arith::lemma_pow_pos(spec_k(layout), depth as nat);
            assert((p / mbli) / capi == 0) by {
                vstd::arithmetic::div_mod::lemma_mod_division_less_than_divisor(p, mbli);
                vstd::arithmetic::div_mod::lemma_fundamental_div_mod(p, mbli);
                let nl2 = subtree_num_leaves(m2, layout, id.value, d2);
                assert(subtree_num_bytes(m2, layout, id.value, d2) <= nl2 * spec_mbl(layout));
                assert(nl2 * spec_mbl(layout) == mbli * (nl2 as int)) by (nonlinear_arith)
                    requires
                        mbli == spec_mbl(layout) as int,
                ;
                vstd::arithmetic::div_mod::lemma_multiply_divide_lt(p, mbli, nl2 as int);
                assert(nl2 <= capi) by {
                    assert(nl2 <= spec_capacity(layout, d2));
                    assert(spec_capacity(layout, d2) == spec_k(layout) * spec_capacity(
                        layout,
                        depth as nat,
                    ));
                    crate::tree_model::lemma_k_at_least_two(layout);
                }
                if p / mbli < capi {
                    vstd::arithmetic::div_mod::lemma_fundamental_div_mod_converse(
                        p / mbli,
                        capi,
                        0,
                        p / mbli,
                    );
                }
                assert(nl2 == subtree_num_leaves(m, layout, id.value, depth as nat));
                lemma_counts(m, layout, id.value, depth as nat);
                assert(subtree_num_leaves(m, layout, id.value, depth as nat) <= spec_capacity(
                    layout,
                    depth as nat,
                ));
            }
            assert(0 * (capi * mbli) == 0) by (nonlinear_arith);
            assert(subtree_byte(m2, layout, id.value, d2, p) == subtree_byte(
                m2,
                layout,
                fresh.value,
                depth as nat,
                p,
            ));
            lemma_byte_frame(m1, m2, layout, fresh.value, depth as nat, p);
        }
    }
}

/// Merges a single-child root with its child: the child's contents move into
/// the root block and the child's block is removed. Depth shrinks by one; the
/// root id, the leaves and the blob stay.
#[verifier::rlimit(100)]
#[verifier::spinoff_prover]
fn collapse_root_once(ns: &mut DataNodeStore, id: BlockId, depth: u8)
    requires
        old(ns).wf(),
        depth >= 1,
        valid_subtree(old(ns)@, old(ns).spec_layout(), id.value, depth as nat),
        lmd_subtree(old(ns)@, old(ns).spec_layout(), id.value, depth as nat),
        subtree_num_bytes(old(ns)@, old(ns).spec_layout(), id.value, depth as nat) <= u64::MAX,
        crate::layout::spec_size_field(old(ns)@[id.value]) == 1,
    ensures
        final(ns).wf(),
        final(ns).spec_layout() == old(ns).spec_layout(),
        ({
            let m2 = final(ns)@;
            let layout = old(ns).spec_layout();
            let d2 = (depth - 1) as nat;
            &&& valid_subtree(m2, layout, id.value, d2)
            &&& lmd_subtree(m2, layout, id.value, d2)
            &&& crate::layout::spec_depth(m2[id.value]) == depth - 1
            &&& subtree_num_leaves(m2, layout, id.value, d2) == subtree_num_leaves(
                old(ns)@,
                layout,
                id.value,
                depth as nat,
            )
            &&& subtree_num_bytes(m2, layout, id.value, d2) == subtree_num_bytes(
                old(ns)@,
                layout,
                id.value,
                depth as nat,
            )
            &&& (forall|p: int|
                0 <= p < subtree_num_bytes(old(ns)@, layout, id.value, depth as nat)
                    ==> #[trigger] subtree_byte(m2, layout, id.value, d2, p) == subtree_byte(
                    old(ns)@,
                    layout,
                    id.value,
                    depth as nat,
                    p,
                ))
            &&& (forall|x: u128|
                #[trigger] subtree_ids(m2, id.value, d2).contains(x) ==> subtree_ids(
                    old(ns)@,
                    id.value,
                    depth as nat,
                ).contains(x))
            &&& (forall|x: u128|
                #[trigger] subtree_ids(old(ns)@, id.value, depth as nat).contains(x)
                    ==> (m2.dom().contains(x) <==> subtree_ids(m2, id.value, d2).contains(x)))
            &&& (forall|x: u128|
                !(#[trigger] subtree_ids(old(ns)@, id.value, depth as nat).contains(x)) ==> ((
                m2.dom().contains(x) <==> old(ns)@.dom().contains(x)) && (old(
                    ns,
                )@.dom().contains(x) ==> m2[x] == old(ns)@[x])))
        }),
{
    let ghost m = ns@;
    let ghost layout = ns.spec_layout();
    let ghost cdepth = (depth - 1) as nat;
    let ghost ids = subtree_ids(m, id.value, depth as nat);
    proof {
        ns.lemma_layout_valid();
        lemma_ids_in_dom(m, layout, id.value, depth as nat);
        lemma_ids_contain_self(m, id.value, depth as nat);
        lemma_counts(m, layout, id.value, depth as nat);
    }
    let node = match ns.load(id) {
        Ok(Some(DataNode::Inner(inner))) => inner,
        _ => {
            proof {
                assert(false);
            }
            return ;
        },
    };
    let child = node.child(0);
    let ghost b = m[id.value];
    let ghost cids = subtree_ids(m, child.value, cdepth);
    proof {
        lemma_children_index(m, layout, b, cdepth, 1, 0);
        crate::tree_model::lemma_child_ids_subset(m, b, cdepth, 0, 1);
        assert(children_ids(m, b, cdepth, 1) =~= cids);
        assert(!cids.contains(id.value));
        lemma_counts(m, layout, child.value, cdepth);
        assert(subtree_num_leaves(m, layout, id.value, depth as nat) == subtree_num_leaves(
            m,
            layout,
            child.value,
            cdepth,
        )) by {
            let cap = spec_capacity(layout, cdepth);
            assert(((1 - 1) as nat) * cap == 0) by (nonlinear_arith);
        }
        assert(subtree_num_bytes(m, layout, id.value, depth as nat) == subtree_num_bytes(
            m,
            layout,
            child.value,
            cdepth,
        )) by {
            let cap = spec_capacity(layout, cdepth);
            assert(((1 - 1) as nat) * cap * spec_mbl(layout) == 0) by (nonlinear_arith);
        }
    }
    let child_block = match ns.load(child) {
        Ok(Some(DataNode::Leaf(l))) => vstd::slice::slice_to_vec(l.raw_blockdata().as_slice()),
        Ok(Some(DataNode::Inner(i))) => vstd::slice::slice_to_vec(i.raw_blockdata().as_slice()),
        _ => {
            proof {
                lemma_ids_in_dom(m, layout, child.value, cdepth);
                crate::tree_model::lemma_ids_contain_self(m, child.value, cdepth);
                assert(false);
            }
            Vec::new()
        },
    };
    ns.overwrite_raw(id, child_block);
    let ghost m1 = ns@;
    proof {
        assert(m1 == m.insert(id.value, m[child.value]));
        assert forall|x: u128| #[trigger] cids.contains(x) && x != child.value implies m1.dom().contains(
            x,
        ) && m1[x] == m[x] by {
            lemma_ids_in_dom(m, layout, child.value, cdepth);
        }
        assert(!cids.remove(child.value).contains(id.value));
        crate::tree_model::lemma_relocate(m, m1, layout, child.value, id.value, cdepth);
    }
    ns.remove(child);
    let ghost m2 = ns@;
    proof {
        assert(m2 == m1.remove(child.value));
        let nids = subtree_ids(m1, id.value, cdepth);
        assert(nids =~= cids.remove(child.value).insert(id.value));
        assert(!nids.contains(child.value));
        assert forall|x: u128| #[trigger] nids.contains(x) implies m2.dom().contains(x) && m2[x]
            == m1[x] by {
            crate::tree_model::lemma_ids_in_dom(m1, layout, id.value, cdepth);
        }
        assert(crate::tree_model::agrees_on(m1, m2, nids));
        lemma_frame(m1, m2, layout, id.value, cdepth);
        assert(subtree_ids(m2, id.value, cdepth) =~= ids.remove(child.value));
        assert forall|p: int|
            0 <= p < subtree_num_bytes(m, layout, id.value, depth as nat) implies #[trigger] subtree_byte(
            m2,
            layout,
            id.value,
            cdepth,
            p,
        ) == subtree_byte(m, layout, id.value, depth as nat, p) by {
            lemma_byte_frame(m1, m2, layout, id.value, cdepth, p);
            // a one-child root holds exactly its child's bytes
            crate::tree_model::lemma_byte_in_child(m, layout, id.value, depth as nat, p);
            let mbli = spec_mbl(layout) as int;
            let capi = spec_capacity(layout, cdepth) as int;
            crate::arith::lemma_pow_pos(spec_k(layout), cdepth);
            assert((p / mbli) / capi == 0) by {
                vstd::arithmetic::div_mod::lemma_mod_division_less_than_divisor(p, mbli);
                let nlp = subtree_num_leaves(m, layout, id.value, depth as nat);
                assert(subtree_num_bytes(m, layout, id.value, depth as nat) <= nlp * spec_mbl(
                    layout,
                ));
                assert(nlp * spec_mbl(layout) == mbli * (nlp as int)) by (nonlinear_arith)
                    requires
                        mbli == spec_mbl(layout) as int,
                ;
                vstd::arithmetic::div_mod::lemma_multiply_divide_lt(p, mbli, nlp as int);
                assert(nlp <= capi) by {
                    lemma_counts(m, layout, child.value, cdepth);
                }
                vstd::arithmetic::div_mod::lemma_fundamental_div_mod_converse(
                    p / mbli,
                    capi,
                    0,
                    p / mbli,
                );
            }
            assert(0 * (capi * mbli) == 0) by (nonlinear_arith);
            assert(subtree_byte(m, layout, id.value, depth as nat, p) == subtree_byte(
                m,
                layout,
                child.value,
                cdepth,
                p,
            ));
        }
    }
}

/// When only the last child's subtree changed, and its surviving bytes read
/// as before, every surviving byte of the parent reads as before too: the
/// other children are untouched and navigation is unchanged.
#[verifier::rlimit(100)]
#[verifier::spinoff_prover]
proof fn lemma_last_child_byte_transfer(
    m: BlockMap,
    m2: BlockMap,
    layout: NodeLayout,
    id: u128,
    depth: nat,
    p: int,
)
    requires
        layout.valid(),
        depth >= 1,
        valid_subtree(m, layout, id, depth),
        lmd_subtree(m, layout, id, depth),
        valid_subtree(m2, layout, id, depth),
        lmd_subtree(m2, layout, id, depth),
        m2.dom().contains(id),
        m2[id] == m[id],
        forall|q: int|
            0 <= q < subtree_num_bytes(
                m,
                layout,
                crate::data_node::spec_child_id(
                    m[id],
                    crate::layout::spec_size_field(m[id]) - 1,
                ),
                (depth - 1) as nat,
            ) && q < subtree_num_bytes(
                m2,
                layout,
                crate::data_node::spec_child_id(
                    m[id],
                    crate::layout::spec_size_field(m[id]) - 1,
                ),
                (depth - 1) as nat,
            ) ==> #[trigger] subtree_byte(
                m2,
                layout,
                crate::data_node::spec_child_id(
                    m[id],
                    crate::layout::spec_size_field(m[id]) - 1,
                ),
                (depth - 1) as nat,
                q,
            ) == subtree_byte(
                m,
                layout,
                crate::data_node::spec_child_id(
                    m[id],
                    crate::layout::spec_size_field(m[id]) - 1,
                ),
                (depth - 1) as nat,
                q,
            ),
        forall|x: u128|
            #[trigger] children_ids(
                m,
                m[id],
                (depth - 1) as nat,
                (crate::layout::spec_size_field(m[id]) - 1) as nat,
            ).contains(x) ==> m2.dom().contains(x) && m2[x] == m[x],
        0 <= p < subtree_num_bytes(m, layout, id, depth),
        p < subtree_num_bytes(m2, layout, id, depth),
        subtree_num_bytes(m, layout, id, depth) <= u64::MAX + spec_mbl(layout),
    ensures
        subtree_byte(m2, layout, id, depth, p) == subtree_byte(m, layout, id, depth, p),
{
    let b = m[id];
    let nc = crate::layout::spec_size_field(b);
    let cdepth = (depth - 1) as nat;
    let cap = spec_capacity(layout, cdepth) as int;
    let mblv = spec_mbl(layout) as int;
    let last = crate::data_node::spec_child_id(b, nc - 1);
    crate::arith::lemma_pow_pos(spec_k(layout), cdepth);
    crate::tree_model::lemma_byte_in_child(m, layout, id, depth, p);
    crate::tree_model::lemma_byte_in_child(m2, layout, id, depth, p);
    let c = (p / mblv) / cap;
    let q = p - c * (cap * mblv);
    let child = crate::data_node::spec_child_id(b, c);
    if c == nc - 1 {
        assert(subtree_byte(m2, layout, last, cdepth, q) == subtree_byte(
            m,
            layout,
            last,
            cdepth,
            q,
        ));
    } else {
        lemma_children_index(m, layout, b, cdepth, nc, c);
        lemma_children_index(m, layout, b, cdepth, (nc - 1) as nat, c);
        lemma_full_props(m, layout, child, cdepth);
        crate::tree_model::lemma_child_ids_subset(m, b, cdepth, c, (nc - 1) as nat);
        assert forall|x: u128| #[trigger] subtree_ids(m, child, cdepth).contains(
            x,
        ) implies m2.dom().contains(x) && m2[x] == m[x] by {
            assert(children_ids(m, b, cdepth, (nc - 1) as nat).contains(x));
        }
        assert(agrees_on(m, m2, subtree_ids(m, child, cdepth)));
        assert(subtree_num_bytes(m, layout, child, cdepth) <= u64::MAX + spec_mbl(layout)) by {
            let ncm1 = (nc - 1) as nat;
            assert(subtree_num_bytes(m, layout, id, depth) == ncm1 * (cap as nat) * spec_mbl(
                layout,
            ) + subtree_num_bytes(m, layout, last, cdepth));
            assert(subtree_num_bytes(m, layout, child, cdepth) == (cap as nat) * spec_mbl(layout));
            assert((cap as nat) * spec_mbl(layout) <= ncm1 * (cap as nat) * spec_mbl(layout)
                && ncm1 * (cap as nat) * spec_mbl(layout) <= ncm1 * (cap as nat) * spec_mbl(layout)
                + subtree_num_bytes(m, layout, last, cdepth)) by (nonlinear_arith)
                requires
                    ncm1 >= 1,
                    cap >= 1,
                    subtree_num_bytes(m, layout, last, cdepth) >= 0,
            ;
        }
        lemma_byte_frame(m, m2, layout, child, cdepth, q);
    }
}

/// One blob byte is unchanged between two stores agreeing on the subtree.
proof fn lemma_byte_frame(
    m: BlockMap,
    m2: BlockMap,
    layout: NodeLayout,
    id: u128,
    depth: nat,
    p: int,
)
    requires
        layout.valid(),
        valid_subtree(m, layout, id, depth),
        lmd_subtree(m, layout, id, depth),
        0 <= p < subtree_num_bytes(m, layout, id, depth),
        subtree_num_bytes(m, layout, id, depth) <= u64::MAX + spec_mbl(layout),
        agrees_on(m, m2, subtree_ids(m, id, depth)),
    ensures
        subtree_byte(m2, layout, id, depth, p) == subtree_byte(m, layout, id, depth, p),
{
    let mbl = spec_mbl(layout);
    let nl = subtree_num_leaves(m, layout, id, depth);
    let nb = subtree_num_bytes(m, layout, id, depth);
    lemma_counts(m, layout, id, depth);
    let l_p = (p / mbl as int) as nat;
    vstd::arithmetic::div_mod::lemma_mod_division_less_than_divisor(p, mbl as int);
    assert(nb <= nl * mbl);
    vstd::arithmetic::div_mod::lemma_multiply_divide_lt(p, mbl as int, nl as int);
    assert(mbl as int * nl as int == nl * mbl) by (nonlinear_arith);
    assert(l_p < nl);
    lemma_nav(m, layout, id, depth, l_p);
    crate::tree_model::lemma_nav_agrees(m, m2, layout, id, depth, l_p);
    let lid = subtree_leaf_id(m, layout, id, depth, l_p);
    assert(subtree_ids(m, id, depth).contains(lid));
    assert(m2[lid] == m[lid]);
}


/// Removes the subtree's rightmost leaf. Every remaining leaf is full
/// afterwards, since only the rightmost one could have been partial.
#[verifier::rlimit(100)]
#[verifier::spinoff_prover]
fn remove_last_leaf(ns: &mut DataNodeStore, id: BlockId, depth: u8)
    requires
        old(ns).wf(),
        depth >= 1,
        valid_subtree(old(ns)@, old(ns).spec_layout(), id.value, depth as nat),
        lmd_subtree(old(ns)@, old(ns).spec_layout(), id.value, depth as nat),
        subtree_num_bytes(old(ns)@, old(ns).spec_layout(), id.value, depth as nat) <= u64::MAX
            + spec_mbl(old(ns).spec_layout()),
        subtree_num_leaves(old(ns)@, old(ns).spec_layout(), id.value, depth as nat) >= 2,
    ensures
        final(ns).wf(),
        final(ns).spec_layout() == old(ns).spec_layout(),
        ({
            let m2 = final(ns)@;
            let layout = old(ns).spec_layout();
            &&& valid_subtree(m2, layout, id.value, depth as nat)
            &&& lmd_subtree(m2, layout, id.value, depth as nat)
            &&& all_leaves_full(m2, layout, id.value, depth as nat)
            &&& crate::layout::spec_depth(m2[id.value]) == depth
            &&& subtree_num_leaves(m2, layout, id.value, depth as nat) == subtree_num_leaves(
                old(ns)@,
                layout,
                id.value,
                depth as nat,
            ) - 1
            &&& (forall|p: int|
                0 <= p < subtree_num_bytes(m2, layout, id.value, depth as nat)
                    ==> #[trigger] subtree_byte(m2, layout, id.value, depth as nat, p)
                    == subtree_byte(old(ns)@, layout, id.value, depth as nat, p))
            &&& (forall|x: u128|
                #[trigger] subtree_ids(m2, id.value, depth as nat).contains(x) ==> subtree_ids(
                    old(ns)@,
                    id.value,
                    depth as nat,
                ).contains(x))
            &&& (forall|x: u128|
                #[trigger] subtree_ids(old(ns)@, id.value, depth as nat).contains(x) ==> (
                m2.dom().contains(x) <==> subtree_ids(m2, id.value, depth as nat).contains(x)))
            &&& (forall|x: u128|
                !(#[trigger] subtree_ids(old(ns)@, id.value, depth as nat).contains(x)) ==> ((
                m2.dom().contains(x) <==> old(ns)@.dom().contains(x)) && (old(
                    ns,
                )@.dom().contains(x) ==> m2[x] == old(ns)@[x])))
        }),
    decreases depth,
{
    let ghost m = ns@;
    let ghost layout = ns.spec_layout();
    let ghost nl = subtree_num_leaves(m, layout, id.value, depth as nat);
    let ghost nb = subtree_num_bytes(m, layout, id.value, depth as nat);
    let ghost mbl = spec_mbl(layout);
    let ghost ids = subtree_ids(m, id.value, depth as nat);
    proof {
        ns.lemma_layout_valid();
        lemma_counts(m, layout, id.value, depth as nat);
        lemma_ids_in_dom(m, layout, id.value, depth as nat);
        lemma_ids_contain_self(m, id.value, depth as nat);
    }
    let node = match ns.load(id) {
        Ok(Some(DataNode::Inner(inner))) => inner,
        _ => {
            proof {
                assert(false);
            }
            return ;
        },
    };
    let ghost b = m[id.value];
    let ghost cdepth = (depth - 1) as nat;
    let ghost cap = spec_capacity(layout, cdepth);
    let nc = node.num_children();
    let ghost ncm1 = (nc - 1) as nat;
    let last = node.child(nc - 1);
    let ghost nl_last = subtree_num_leaves(m, layout, last.value, cdepth);
    let ghost nb_last = subtree_num_bytes(m, layout, last.value, cdepth);
    proof {
        crate::arith::lemma_pow_pos(spec_k(layout), cdepth);
        lemma_children_index(m, layout, b, cdepth, nc as nat, nc as int - 1);
        lemma_counts(m, layout, last.value, cdepth);
        assert(nl == ncm1 * cap + nl_last);
        assert(nb == ncm1 * cap * mbl + nb_last);
        assert(nb_last <= nb) by (nonlinear_arith)
            requires
                nb == ncm1 * cap * mbl + nb_last,
                ncm1 * cap * mbl >= 0,
        ;
        assert(ncm1 * cap * mbl >= 0) by (nonlinear_arith);
    }
    let last_leaves = num_leaves_rec(ns, last, depth - 1);
    if last_leaves >= 2 {
        remove_last_leaf(ns, last, depth - 1);
        let ghost m2 = ns@;
        proof {
            let ids2 = subtree_ids(m2, last.value, cdepth);
            lemma_children_update_general(
                m,
                m2,
                layout,
                b,
                cdepth,
                nc as nat,
                nc as int - 1,
                ids2,
            );
            assert(!subtree_ids(m, last.value, cdepth).contains(id.value));
            assert(!ids2.contains(id.value));
            assert(m2[id.value] == b);
            assert(valid_subtree(m2, layout, id.value, depth as nat));
            assert(lmd_subtree(m2, layout, id.value, depth as nat)) by {
                crate::tree_model::lemma_children_prefix(m, layout, b, cdepth, ncm1, nc as nat);
                crate::tree_model::lemma_full_children_transfer(m, m2, layout, b, cdepth, ncm1);
            }
            assert(subtree_num_leaves(m2, layout, id.value, depth as nat) == nl - 1);
            assert(all_leaves_full(m2, layout, id.value, depth as nat)) by {
                assert(subtree_num_bytes(m2, layout, last.value, cdepth) == subtree_num_leaves(
                    m2,
                    layout,
                    last.value,
                    cdepth,
                ) * mbl);
                assert((nl - 1) as nat * mbl == ncm1 * cap * mbl + ((nl_last - 1) as nat) * mbl)
                    by (nonlinear_arith)
                    requires
                        nl == ncm1 * cap + nl_last,
                        nl_last >= 1,
                ;
            }
            assert(subtree_ids(m2, id.value, depth as nat) =~= children_ids(
                m2,
                b,
                cdepth,
                nc as nat,
            ).insert(id.value));
            assert forall|x: u128| #[trigger] ids.contains(x) implies (m2.dom().contains(x) <==>
            subtree_ids(m2, id.value, depth as nat).contains(x)) by {
                if x == id.value {
                } else if subtree_ids(m, last.value, cdepth).contains(x) {
                } else {
                    assert(m2.dom().contains(x) <==> m.dom().contains(x));
                    assert(m.dom().contains(x));
                }
            }
            // the surviving bytes read as before: untouched siblings by
            // framing, the trimmed last child by induction
            let nb2 = subtree_num_bytes(m2, layout, id.value, depth as nat);
            assert(all_leaves_full(m2, layout, id.value, depth as nat));
            assert(subtree_num_leaves(m2, layout, id.value, depth as nat) == (nl - 1) as nat);
            assert(nb2 == ((nl - 1) as nat) * mbl);
            assert((nl - 1) * (mbl as int) <= nb);
            assert(nb2 <= nb) by (nonlinear_arith)
                requires
                    nb2 == ((nl - 1) as nat) * mbl,
                    (nl - 1) * (mbl as int) <= nb,
                    nl >= 1,
            ;
            assert forall|x: u128|
                #[trigger] children_ids(m, b, cdepth, ncm1).contains(x) implies m2.dom().contains(
                x,
            ) && m2[x] == m[x] by {
                crate::tree_model::lemma_children_prefix(m, layout, b, cdepth, ncm1, nc as nat);
                assert(children_ids(m, b, cdepth, ncm1).disjoint(
                    subtree_ids(m, last.value, cdepth),
                ));
                assert(!subtree_ids(m, last.value, cdepth).contains(x));
                crate::tree_model::lemma_children_ids_in_dom(m, layout, b, cdepth, ncm1);
            }
            assert forall|p: int|
                0 <= p < nb2 implies #[trigger] subtree_byte(m2, layout, id.value, depth as nat, p)
                == subtree_byte(m, layout, id.value, depth as nat, p) by {
                lemma_last_child_byte_transfer(m, m2, layout, id.value, depth as nat, p);
            }
        }
        return ;
    }
    // the last child holds a single leaf: discard that whole child
    proof {
        assert(nl_last == 1);
        assert(ncm1 >= 1) by (nonlinear_arith)
            requires
                nl == ncm1 * cap + nl_last,
                nl >= 2,
                nl_last == 1,
                cap >= 1,
        ;
        assert(nc >= 2);
    }
    let mut children = node.children();
    proof {
        assert forall|i: int| 0 <= i < nc implies children@[i].value
            == crate::data_node::spec_child_id(b, i) by {
            assert(children@[i].value == node.spec_child(i));
        }
    }
    remove_subtree_rec(ns, last, depth - 1);
    let ghost m1 = ns@;
    children.pop();
    ns.overwrite_inner(id, depth, &children);
    let ghost m2 = ns@;
    proof {
        lemma_drop_last_child(m, m1, m2, layout, id.value, depth as nat, b, m2[id.value], nc as nat);
    }
}

/// Dropping a one-leaf last child from an inner node, removing its blocks,
/// keeps the tree well formed with one leaf fewer, all of them full.
#[verifier::rlimit(100)]
#[verifier::spinoff_prover]
proof fn lemma_drop_last_child(
    m: BlockMap,
    m1: BlockMap,
    m2: BlockMap,
    layout: NodeLayout,
    id: u128,
    depth: nat,
    b: Seq<u8>,
    b2: Seq<u8>,
    nc: nat,
)
    requires
        layout.valid(),
        depth >= 1,
        valid_subtree(m, layout, id, depth),
        lmd_subtree(m, layout, id, depth),
        subtree_num_bytes(m, layout, id, depth) <= u64::MAX + spec_mbl(layout),
        b == m[id],
        nc == crate::layout::spec_size_field(b),
        nc >= 2,
        subtree_num_leaves(
            m,
            layout,
            crate::data_node::spec_child_id(b, nc - 1),
            (depth - 1) as nat,
        ) == 1,
        m1 == m.remove_keys(
            subtree_ids(m, crate::data_node::spec_child_id(b, nc - 1), (depth - 1) as nat),
        ),
        m2 == m1.insert(id, b2),
        crate::data_node::is_inner_bytes(layout, b2),
        crate::layout::spec_depth(b2) == depth,
        crate::layout::spec_size_field(b2) == nc - 1,
        forall|i: int| 0 <= i < nc - 1 ==> crate::data_node::spec_child_id(b2, i)
            == crate::data_node::spec_child_id(b, i),
    ensures
        valid_subtree(m2, layout, id, depth),
        lmd_subtree(m2, layout, id, depth),
        all_leaves_full(m2, layout, id, depth),
        crate::layout::spec_depth(m2[id]) == depth,
        subtree_num_leaves(m2, layout, id, depth) == subtree_num_leaves(m, layout, id, depth) - 1,
        forall|p: int|
            0 <= p < subtree_num_bytes(m2, layout, id, depth) ==> #[trigger] subtree_byte(
                m2,
                layout,
                id,
                depth,
                p,
            ) == subtree_byte(m, layout, id, depth, p),
        forall|x: u128|
            #[trigger] subtree_ids(m2, id, depth).contains(x) ==> subtree_ids(
                m,
                id,
                depth,
            ).contains(x),
        forall|x: u128|
            #[trigger] subtree_ids(m, id, depth).contains(x) ==> (m2.dom().contains(x) <==>
            subtree_ids(m2, id, depth).contains(x)),
        forall|x: u128|
            !(#[trigger] subtree_ids(m, id, depth).contains(x)) ==> ((m2.dom().contains(x) <==>
            m.dom().contains(x)) && (m.dom().contains(x) ==> m2[x] == m[x])),
{
    let cdepth = (depth - 1) as nat;
    let cap = spec_capacity(layout, cdepth);
    let mbl = spec_mbl(layout);
    let ncm1 = (nc - 1) as nat;
    let ncm2 = (nc - 2) as nat;
    let nl = subtree_num_leaves(m, layout, id, depth);
    let last = crate::data_node::spec_child_id(b, nc - 1);
    let prev = crate::data_node::spec_child_id(b, nc - 2);
    let last_ids = subtree_ids(m, last, cdepth);
    crate::arith::lemma_pow_pos(spec_k(layout), cdepth);
    lemma_children_index(m, layout, b, cdepth, nc, nc as int - 1);
    lemma_children_index(m, layout, b, cdepth, ncm1, nc as int - 2);
    lemma_counts(m, layout, last, cdepth);
    lemma_ids_in_dom(m, layout, id, depth);
    lemma_ids_contain_self(m, id, depth);
    assert(!last_ids.contains(id));
    // the kept children are untouched
    let cids1 = children_ids(m, b, cdepth, ncm1);
    crate::tree_model::lemma_children_prefix(m, layout, b, cdepth, ncm1, nc);
    assert forall|x: u128| #[trigger] cids1.contains(x) implies m2.dom().contains(x) && m2[x]
        == m[x] by {
        crate::tree_model::lemma_children_ids_in_dom(m, layout, b, cdepth, ncm1);
        crate::tree_model::lemma_children_ids_mono(m, b, cdepth, ncm1, nc);
        assert(!last_ids.contains(x));
        assert(x != id);
    }
    assert(agrees_on(m, m2, cids1));
    crate::tree_model::lemma_frame_children(m, m2, layout, b, cdepth, ncm1);
    crate::tree_model::lemma_children_same_prefix(m2, layout, b, b2, cdepth, ncm1);
    assert(valid_subtree(m2, layout, id, depth)) by {
        assert(valid_children(m2, layout, b2, cdepth, ncm1));
        assert(children_disjoint(m2, b2, cdepth, ncm1));
        assert(!children_ids(m2, b2, cdepth, ncm1).contains(id)) by {
            assert(children_ids(m2, b2, cdepth, ncm1) == cids1);
            crate::tree_model::lemma_children_ids_mono(m, b, cdepth, ncm1, nc);
        }
    }
    // the new last child is full, so left-max-data holds and all leaves are
    // full
    crate::tree_model::lemma_children_prefix(m, layout, b, cdepth, ncm2, ncm1);
    lemma_children_index(m, layout, b, cdepth, ncm1, nc as int - 2);
    assert(full_subtree(m, layout, prev, cdepth)) by {
        assert(full_children(m, layout, b, cdepth, ncm1));
        crate::tree_model::lemma_children_index(m, layout, b, cdepth, ncm1, nc as int - 2);
    }
    assert(full_subtree(m2, layout, prev, cdepth)) by {
        assert(full_children(m2, layout, b, cdepth, ncm1) == full_children(
            m,
            layout,
            b,
            cdepth,
            ncm1,
        ));
        crate::tree_model::lemma_children_index(m2, layout, b, cdepth, ncm1, nc as int - 2);
        assert(full_children(m, layout, b, cdepth, ncm1));
    }
    lemma_full_props(m2, layout, prev, cdepth);
    assert(valid_subtree(m2, layout, prev, cdepth)) by {
        crate::tree_model::lemma_children_index(m2, layout, b2, cdepth, ncm1, nc as int - 2);
    }
    assert(lmd_subtree(m2, layout, id, depth)) by {
        crate::tree_model::lemma_children_prefix(m2, layout, b2, cdepth, ncm2, ncm1);
        assert(full_children(m2, layout, b2, cdepth, ncm2));
    }
    assert(subtree_num_leaves(m2, layout, id, depth) == nl - 1) by {
        assert(subtree_num_leaves(m2, layout, prev, cdepth) == cap);
        assert(ncm2 * cap + cap == ncm1 * cap) by (nonlinear_arith)
            requires
                ncm2 + 1 == ncm1,
        ;
        assert(nl == ncm1 * cap + 1);
    }
    assert(all_leaves_full(m2, layout, id, depth)) by {
        assert(subtree_num_bytes(m2, layout, prev, cdepth) == cap * mbl);
        assert(ncm2 * cap * mbl + cap * mbl == ncm1 * cap * mbl) by (nonlinear_arith)
            requires
                ncm2 + 1 == ncm1,
        ;
        assert((ncm1 * cap) as nat * mbl == ncm1 * cap * mbl) by (nonlinear_arith);
    }
    // the kept bytes read as before: they all lie in untouched children
    let nb2 = subtree_num_bytes(m2, layout, id, depth);
    lemma_counts(m, layout, id, depth);
    lemma_counts(m2, layout, id, depth);
    assert forall|p: int| 0 <= p < nb2 implies #[trigger] subtree_byte(m2, layout, id, depth, p)
        == subtree_byte(m, layout, id, depth, p) by {
        let capi = cap as int;
        let mbli = mbl as int;
        crate::tree_model::lemma_byte_in_child(m2, layout, id, depth, p);
        assert(nb2 <= subtree_num_bytes(m, layout, id, depth)) by (nonlinear_arith)
            requires
                nb2 == ncm1 * (cap as nat) * mbl,
                subtree_num_bytes(m, layout, id, depth) == ncm1 * (cap as nat) * mbl
                    + subtree_num_bytes(
                    m,
                    layout,
                    crate::data_node::spec_child_id(m[id], nc - 1),
                    (depth - 1) as nat,
                ),
                subtree_num_bytes(
                    m,
                    layout,
                    crate::data_node::spec_child_id(m[id], nc - 1),
                    (depth - 1) as nat,
                ) >= 0,
        ;
        crate::tree_model::lemma_byte_in_child(m, layout, id, depth, p);
        let c = (p / mbli) / capi;
        let q = p - c * (capi * mbli);
        let ch = crate::data_node::spec_child_id(b, c);
        assert(c < nc - 1) by {
            assert(p < ncm1 * (cap as nat) * mbl);
            assert(ncm1 * (cap as nat) * mbl == mbli * (capi * (ncm1 as int))) by (nonlinear_arith)
                requires
                    capi == cap as int,
                    mbli == mbl as int,
            ;
            vstd::arithmetic::div_mod::lemma_multiply_divide_lt(p, mbli, capi * (ncm1 as int));
            vstd::arithmetic::div_mod::lemma_multiply_divide_lt(p / mbli, capi, ncm1 as int);
        }
        assert(crate::data_node::spec_child_id(b2, c) == ch);
        lemma_children_index(m, layout, b, cdepth, nc, c);
        lemma_children_index(m, layout, b, cdepth, ncm1, c);
        lemma_full_props(m, layout, ch, cdepth);
        crate::tree_model::lemma_children_pairwise_disjoint(m, b, cdepth, nc, c, nc as int - 1);
        assert forall|x: u128| #[trigger] subtree_ids(m, ch, cdepth).contains(
            x,
        ) implies m2.dom().contains(x) && m2[x] == m[x] by {
            assert(!subtree_ids(m, last, cdepth).contains(x));
            lemma_ids_in_dom(m, layout, ch, cdepth);
            assert(x != id) by {
                lemma_ids_contain_self(m, id, depth);
                crate::tree_model::lemma_child_ids_subset(m, b, cdepth, c, nc);
                assert(!children_ids(m, b, cdepth, nc).contains(id));
            }
        }
        assert(agrees_on(m, m2, subtree_ids(m, ch, cdepth)));
        assert(subtree_num_bytes(m, layout, ch, cdepth) <= u64::MAX + spec_mbl(layout)) by {
            assert(subtree_num_bytes(m, layout, ch, cdepth) == (cap as nat) * mbl);
            assert((cap as nat) * mbl <= ncm1 * (cap as nat) * mbl) by (nonlinear_arith)
                requires
                    ncm1 >= 1,
                    cap >= 1,
                    mbl >= 0,
            ;
        }
        lemma_byte_frame(m, m2, layout, ch, cdepth, q);
    }
    // id bookkeeping
    assert(subtree_ids(m2, id, depth) =~= cids1.insert(id));
    assert forall|x: u128| #[trigger] subtree_ids(m, id, depth).contains(x) implies (
    m2.dom().contains(x) <==> subtree_ids(m2, id, depth).contains(x)) by {
        if x == id {
        } else if last_ids.contains(x) {
            if cids1.contains(x) {
                crate::tree_model::lemma_children_prefix(m, layout, b, cdepth, ncm1, nc);
                assert(children_ids(m, b, cdepth, ncm1).disjoint(last_ids));
            }
        } else {
            assert(m.dom().contains(x));
        }
    }
}


/// The three framing clauses every tree mutation maintains, measured against
/// the blocks and tree ids of an earlier store: blocks outside both trees are
/// untouched, new tree blocks are old ones or fresh, and old tree blocks
/// survive exactly when the new tree still uses them.
pub open spec fn tree_evolves(
    m0: BlockMap,
    ids0: Set<u128>,
    m2: BlockMap,
    ids2: Set<u128>,
) -> bool {
    &&& (forall|x: u128|
        !(#[trigger] ids0.contains(x)) && !ids2.contains(x) ==> ((m2.dom().contains(x) <==>
        m0.dom().contains(x)) && (m0.dom().contains(x) ==> m2[x] == m0[x])))
    &&& (forall|x: u128|
        #[trigger] ids2.contains(x) ==> ids0.contains(x) || !(m0.dom().contains(x)))
    &&& (forall|x: u128|
        #[trigger] ids0.contains(x) ==> (m2.dom().contains(x) <==> ids2.contains(x)))
    &&& (forall|x: u128| #[trigger] ids2.contains(x) ==> m2.dom().contains(x))
}

/// Tree evolution composes across successive mutations.
pub proof fn lemma_tree_evolves_trans(
    m0: BlockMap,
    ids0: Set<u128>,
    m1: BlockMap,
    ids1: Set<u128>,
    m2: BlockMap,
    ids2: Set<u128>,
)
    requires
        tree_evolves(m0, ids0, m1, ids1),
        tree_evolves(m1, ids1, m2, ids2),
    ensures
        tree_evolves(m0, ids0, m2, ids2),
{
    assert forall|x: u128|
        !(#[trigger] ids0.contains(x)) && !ids2.contains(x) implies ((m2.dom().contains(x) <==>
    m0.dom().contains(x)) && (m0.dom().contains(x) ==> m2[x] == m0[x])) by {
        if ids1.contains(x) {
            assert(ids0.contains(x) || !m0.dom().contains(x));
        }
    }
    assert forall|x: u128| #[trigger] ids2.contains(x) implies ids0.contains(x) || !(
    m0.dom().contains(x)) by {
        if ids1.contains(x) {
        } else {
            if !m1.dom().contains(x) {
                if m0.dom().contains(x) && !ids0.contains(x) {
                    assert(m1.dom().contains(x));
                }
            }
        }
    }
    assert forall|x: u128| #[trigger] ids0.contains(x) implies (m2.dom().contains(x) <==>
    ids2.contains(x)) by {
        if ids1.contains(x) {
        } else {
            assert(!m1.dom().contains(x));
            if m2.dom().contains(x) {
                assert(ids2.contains(x) || m1.dom().contains(x));
            }
        }
    }
    assert forall|x: u128| #[trigger] ids2.contains(x) implies m2.dom().contains(x) by {}
}

/// A growth step: its new tree keeps every old block and adds only fresh
/// ones, and touches nothing else.
pub proof fn lemma_evolves_grow_step(m: BlockMap, ids1: Set<u128>, m2: BlockMap, ids2: Set<u128>)
    requires
        forall|x: u128| #[trigger] ids2.contains(x) ==> ids1.contains(x) || !(m.dom().contains(x)),
        forall|x: u128| #[trigger] ids1.contains(x) ==> ids2.contains(x),
        forall|x: u128|
            !(#[trigger] ids2.contains(x)) ==> ((m2.dom().contains(x) <==> m.dom().contains(x))
                && (m.dom().contains(x) ==> m2[x] == m[x])),
        forall|x: u128| #[trigger] ids2.contains(x) ==> m2.dom().contains(x),
        forall|x: u128| #[trigger] ids1.contains(x) ==> m.dom().contains(x),
    ensures
        tree_evolves(m, ids1, m2, ids2),
{
}

/// A shrink step: its new tree uses only old blocks, frees the rest of the
/// old tree's blocks, and touches nothing else.
pub proof fn lemma_evolves_shrink_step(m: BlockMap, ids1: Set<u128>, m2: BlockMap, ids2: Set<u128>)
    requires
        forall|x: u128| #[trigger] ids2.contains(x) ==> ids1.contains(x),
        forall|x: u128|
            #[trigger] ids1.contains(x) ==> (m2.dom().contains(x) <==> ids2.contains(x)),
        forall|x: u128|
            !(#[trigger] ids1.contains(x)) ==> ((m2.dom().contains(x) <==> m.dom().contains(x))
                && (m.dom().contains(x) ==> m2[x] == m[x])),
        forall|x: u128| #[trigger] ids2.contains(x) ==> m2.dom().contains(x),
    ensures
        tree_evolves(m, ids1, m2, ids2),
{
}

impl DataTree {
    /// Grows or shrinks the blob to exactly `new_size` bytes. Growth reveals
    /// zeroes; shrinking discards the tail. The tree is reshaped leaf by leaf
    /// along its rightmost path, the root is lifted or collapsed as the depth
    /// changes, and the root id never changes. Resizing to the current size
    /// changes nothing at all.
    pub fn resize_num_bytes(&self, ns: &mut DataNodeStore, new_size: u64) -> (r: Result<
        (),
        StoreError,
    >)
        requires
            old(ns).wf(),
            is_tree(old(ns)@, old(ns).spec_layout(), self.spec_root()),
            new_size as nat <= spec_mbl(old(ns).spec_layout()) * spec_capacity(
                old(ns).spec_layout(),
                crate::layout::MAX_DEPTH as nat,
            ),
        ensures
            final(ns).wf(),
            final(ns).spec_layout() == old(ns).spec_layout(),
            is_tree(final(ns)@, final(ns).spec_layout(), self.spec_root()),
            tree_blob(final(ns)@, final(ns).spec_layout(), self.spec_root()).len() == new_size,
            tree_blob(old(ns)@, old(ns).spec_layout(), self.spec_root()).len() == new_size ==>
                final(ns)@ == old(ns)@,
            forall|p: int|
                0 <= p < new_size && p < tree_blob(
                    old(ns)@,
                    old(ns).spec_layout(),
                    self.spec_root(),
                ).len() ==> tree_blob(final(ns)@, final(ns).spec_layout(), self.spec_root())[p]
                    == tree_blob(old(ns)@, old(ns).spec_layout(), self.spec_root())[p],
            forall|p: int|
                tree_blob(old(ns)@, old(ns).spec_layout(), self.spec_root()).len() <= p < new_size
                    ==> tree_blob(final(ns)@, final(ns).spec_layout(), self.spec_root())[p] == 0,
            tree_evolves(
                old(ns)@,
                tree_ids(old(ns)@, self.spec_root()),
                final(ns)@,
                tree_ids(final(ns)@, self.spec_root()),
            ),
            r is Ok,
    {
        let ghost m0 = ns@;
        let ghost layout = ns.spec_layout();
        let ghost ids0 = tree_ids(m0, self.spec_root());
        let ghost blob0 = tree_blob(m0, ns.spec_layout(), self.spec_root());
        let root = self.root_id;
        proof {
            ns.lemma_layout_valid();
        }
        let mut depth = root_depth(ns, root);
        let nb0 = num_bytes_rec(ns, root, depth);
        if new_size == nb0 {
            proof {
                lemma_ids_in_dom(m0, layout, root.value, depth as nat);
                assert(tree_evolves(m0, ids0, ns@, tree_ids(ns@, self.spec_root())));
            }
            return Ok(());
        }
        let mbl = ns.layout().max_bytes_per_leaf();
        let ghost k = spec_k(layout);
        // how many leaves the resized blob needs
        let l_new: u64 = if new_size == 0 {
            1
        } else {
            crate::arith::div_ceil_u64(new_size, mbl as u64)
        };
        proof {
            lemma_target_counts(layout, new_size as nat, l_new as nat);
            lemma_ids_in_dom(m0, layout, root.value, depth as nat);
            assert(tree_evolves(m0, ids0, ns@, subtree_ids(ns@, root.value, depth as nat)));
            lemma_num_leaves_bounded(m0, layout, root.value, depth as nat);
        }
        let tail: u64 = new_size - (l_new - 1) * (mbl as u64);
        let mut nl = num_leaves_rec(ns, root, depth);
        // drop whole leaves while there are too many
        while nl > l_new
            invariant
                ns.wf(),
                layout == ns.spec_layout(),
                layout.valid(),
                valid_subtree(ns@, layout, root.value, depth as nat),
                lmd_subtree(ns@, layout, root.value, depth as nat),
                crate::layout::spec_depth(ns@[root.value]) == depth,
                nl == subtree_num_leaves(ns@, layout, root.value, depth as nat),
                nl >= 1,
                l_new >= 1,
                subtree_num_bytes(ns@, layout, root.value, depth as nat) <= u64::MAX + spec_mbl(
                    layout,
                ),
                subtree_num_bytes(ns@, layout, root.value, depth as nat) <= blob0.len(),
                blob0.len() <= u64::MAX,
                nl < l_new ==> ns@ == m0,
                all_leaves_full(ns@, layout, root.value, depth as nat) || ns@ == m0,
                depth as nat == tree_depth(m0, self.spec_root()),
                blob0 == tree_blob(m0, layout, self.spec_root()),
                forall|p: int|
                    0 <= p < subtree_num_bytes(ns@, layout, root.value, depth as nat)
                        ==> #[trigger] subtree_byte(ns@, layout, root.value, depth as nat, p)
                        == blob0[p],
                tree_evolves(m0, ids0, ns@, subtree_ids(ns@, root.value, depth as nat)),
            decreases nl,
        {
            let ghost m_pre = ns@;
            let ghost ids_pre = subtree_ids(m_pre, root.value, depth as nat);
            proof {
                lemma_counts(m_pre, layout, root.value, depth as nat);
            }
            remove_last_leaf(ns, root, depth);
            proof {
                lemma_ids_in_dom(ns@, layout, root.value, depth as nat);
                lemma_evolves_shrink_step(
                    m_pre,
                    ids_pre,
                    ns@,
                    subtree_ids(ns@, root.value, depth as nat),
                );
                lemma_tree_evolves_trans(
                    m0,
                    ids0,
                    m_pre,
                    ids_pre,
                    ns@,
                    subtree_ids(ns@, root.value, depth as nat),
                );
                assert(subtree_num_bytes(ns@, layout, root.value, depth as nat) == ((nl
                    - 1) as nat) * spec_mbl(layout));
                assert(((nl - 1) as nat) * spec_mbl(layout) <= subtree_num_bytes(
                    m_pre,
                    layout,
                    root.value,
                    depth as nat,
                ));
            }
            nl = nl - 1;
        }
        if nl < l_new {
            // every current leaf must be full before new leaves are hung on
            let ghost m_pre = ns@;
            let ghost ids_pre = subtree_ids(m_pre, root.value, depth as nat);
            proof {
                assert(ns@ == m0);
                lemma_counts(m_pre, layout, root.value, depth as nat);
                assert((nl as nat) * (mbl as nat) <= (l_new as nat) * (mbl as nat) && ((
                nl as nat) - 1) * (mbl as nat) + (mbl as nat) == (nl as nat) * (mbl as nat))
                    by (nonlinear_arith)
                    requires
                        nl <= l_new,
                ;
            }
            resize_last_leaf(ns, root, depth, mbl);
            proof {
                lemma_ids_in_dom(ns@, layout, root.value, depth as nat);
                lemma_evolves_grow_step(
                    m_pre,
                    ids_pre,
                    ns@,
                    subtree_ids(ns@, root.value, depth as nat),
                );
                lemma_tree_evolves_trans(
                    m0,
                    ids0,
                    m_pre,
                    ids_pre,
                    ns@,
                    subtree_ids(ns@, root.value, depth as nat),
                );
                assert(subtree_num_bytes(ns@, layout, root.value, depth as nat) == (nl as nat)
                    * (mbl as nat));
                assert(blob0.len() <= subtree_num_bytes(ns@, layout, root.value, depth as nat));
                assert forall|p: int|
                    0 <= p < subtree_num_bytes(ns@, layout, root.value, depth as nat)
                        implies #[trigger] subtree_byte(ns@, layout, root.value, depth as nat, p)
                    == (if p < blob0.len() {
                    blob0[p]
                } else {
                    0u8
                }) by {}
            }
            while nl < l_new
                invariant
                    ns.wf(),
                    layout == ns.spec_layout(),
                    layout.valid(),
                    k == spec_k(layout),
                    mbl == spec_mbl(layout),
                    valid_subtree(ns@, layout, root.value, depth as nat),
                    lmd_subtree(ns@, layout, root.value, depth as nat),
                    all_leaves_full(ns@, layout, root.value, depth as nat),
                    crate::layout::spec_depth(ns@[root.value]) == depth,
                    nl == subtree_num_leaves(ns@, layout, root.value, depth as nat),
                    1 <= nl <= l_new,
                    (l_new as nat) <= spec_capacity(layout, crate::layout::MAX_DEPTH as nat),
                    (l_new as nat) * spec_mbl(layout) <= new_size + spec_mbl(layout),
                    blob0 == tree_blob(m0, layout, self.spec_root()),
                    blob0.len() <= subtree_num_bytes(ns@, layout, root.value, depth as nat),
                    blob0.len() <= u64::MAX,
                    forall|p: int|
                        0 <= p < subtree_num_bytes(ns@, layout, root.value, depth as nat)
                            ==> #[trigger] subtree_byte(ns@, layout, root.value, depth as nat, p)
                            == (if p < blob0.len() {
                            blob0[p]
                        } else {
                            0u8
                        }),
                    tree_evolves(m0, ids0, ns@, subtree_ids(ns@, root.value, depth as nat)),
                decreases l_new - nl,
            {
                let ghost m_pre = ns@;
                let ghost ids_pre = subtree_ids(m_pre, root.value, depth as nat);
                proof {
                    assert((nl as nat) * (mbl as nat) <= (l_new as nat) * (mbl as nat))
                        by (nonlinear_arith)
                        requires
                            nl <= l_new,
                    ;
                }
                let added = add_leaf_rec(ns, root, depth);
                if !added {
                    proof {
                        assert(depth < crate::layout::MAX_DEPTH) by {
                            if depth >= crate::layout::MAX_DEPTH {
                                assert(depth <= crate::layout::MAX_DEPTH);
                                crate::arith::lemma_pow_mono(
                                    k,
                                    crate::layout::MAX_DEPTH as nat,
                                    depth as nat,
                                );
                            }
                        }
                    }
                    lift_root(ns, root, depth);
                    depth = depth + 1;
                    let ghost m_lift = ns@;
                    proof {
                        lemma_ids_in_dom(m_lift, layout, root.value, depth as nat);
                        lemma_evolves_grow_step(
                            m_pre,
                            ids_pre,
                            m_lift,
                            subtree_ids(m_lift, root.value, depth as nat),
                        );
                        lemma_tree_evolves_trans(
                            m0,
                            ids0,
                            m_pre,
                            ids_pre,
                            m_lift,
                            subtree_ids(m_lift, root.value, depth as nat),
                        );
                        assert(subtree_num_leaves(m_lift, layout, root.value, depth as nat)
                            < spec_capacity(layout, depth as nat)) by {
                            crate::arith::lemma_pow_pos(k, (depth - 1) as nat);
                            crate::tree_model::lemma_k_at_least_two(layout);
                            lemma_counts(m_pre, layout, root.value, (depth - 1) as nat);
                            assert(subtree_num_leaves(m_pre, layout, root.value, (depth
                                - 1) as nat) == spec_capacity(layout, (depth - 1) as nat));
                            assert(subtree_num_leaves(m_lift, layout, root.value, depth as nat)
                                == spec_capacity(layout, (depth - 1) as nat));
                            assert(spec_capacity(layout, depth as nat) == spec_k(layout)
                                * spec_capacity(layout, (depth - 1) as nat));
                            assert(spec_capacity(layout, (depth - 1) as nat) < spec_capacity(
                                layout,
                                depth as nat,
                            )) by (nonlinear_arith)
                                requires
                                    spec_capacity(layout, depth as nat) == spec_k(layout)
                                        * spec_capacity(layout, (depth - 1) as nat),
                                    spec_k(layout) >= 2,
                                    spec_capacity(layout, (depth - 1) as nat) >= 1,
                            ;
                        }
                    }
                    let ghost m_pre2 = ns@;
                    let added2 = add_leaf_rec(ns, root, depth);
                    proof {
                        assert(added2);
                        lemma_ids_in_dom(ns@, layout, root.value, depth as nat);
                        lemma_evolves_grow_step(
                            m_pre2,
                            subtree_ids(m_pre2, root.value, depth as nat),
                            ns@,
                            subtree_ids(ns@, root.value, depth as nat),
                        );
                        lemma_tree_evolves_trans(
                            m0,
                            ids0,
                            m_pre2,
                            subtree_ids(m_pre2, root.value, depth as nat),
                            ns@,
                            subtree_ids(ns@, root.value, depth as nat),
                        );
                    }
                } else {
                    proof {
                        lemma_ids_in_dom(ns@, layout, root.value, depth as nat);
                        lemma_evolves_grow_step(
                            m_pre,
                            ids_pre,
                            ns@,
                            subtree_ids(ns@, root.value, depth as nat),
                        );
                        lemma_tree_evolves_trans(
                            m0,
                            ids0,
                            m_pre,
                            ids_pre,
                            ns@,
                            subtree_ids(ns@, root.value, depth as nat),
                        );
                    }
                }
                nl = nl + 1;
            }
        }
        // trim the last leaf to the remainder
        let ghost m_pre3 = ns@;
        let ghost ids_pre3 = subtree_ids(m_pre3, root.value, depth as nat);
        proof {
            lemma_counts(m_pre3, layout, root.value, depth as nat);
            assert(subtree_num_bytes(m_pre3, layout, root.value, depth as nat) <= (
            l_new as nat) * (mbl as nat)) by (nonlinear_arith)
                requires
                    subtree_num_bytes(m_pre3, layout, root.value, depth as nat)
                        <= subtree_num_leaves(m_pre3, layout, root.value, depth as nat) * (
                    mbl as nat),
                    subtree_num_leaves(m_pre3, layout, root.value, depth as nat) == l_new as nat,
                    mbl >= 0,
            ;
        }
        proof {
            // both routes end with every byte fixed against the original
            // blob: kept bytes as they were, anything past its old end zero
            assert(forall|p: int|
                0 <= p < subtree_num_bytes(m_pre3, layout, root.value, depth as nat)
                    ==> #[trigger] subtree_byte(m_pre3, layout, root.value, depth as nat, p) == (
                if p < blob0.len() {
                    blob0[p]
                } else {
                    0u8
                }));
            assert(new_size <= subtree_num_bytes(m_pre3, layout, root.value, depth as nat)
                || blob0.len() <= subtree_num_bytes(m_pre3, layout, root.value, depth as nat)) by {
                if all_leaves_full(m_pre3, layout, root.value, depth as nat) {
                    assert(subtree_num_bytes(m_pre3, layout, root.value, depth as nat) == (
                    l_new as nat) * (mbl as nat));
                    assert(new_size <= (l_new as nat) * (mbl as nat)) by (nonlinear_arith)
                        requires
                            ((l_new as nat) - 1) * spec_mbl(layout) <= new_size,
                            new_size - ((l_new as nat) - 1) * spec_mbl(layout) <= spec_mbl(layout),
                            mbl == spec_mbl(layout),
                            l_new >= 1,
                    ;
                } else {
                    assert(m_pre3 == m0);
                    assert(subtree_num_bytes(m_pre3, layout, root.value, depth as nat)
                        == blob0.len());
                }
            }
        }
        resize_last_leaf(ns, root, depth, tail as u32);
        proof {
            lemma_ids_in_dom(ns@, layout, root.value, depth as nat);
            lemma_evolves_grow_step(
                m_pre3,
                ids_pre3,
                ns@,
                subtree_ids(ns@, root.value, depth as nat),
            );
            lemma_tree_evolves_trans(
                m0,
                ids0,
                m_pre3,
                ids_pre3,
                ns@,
                subtree_ids(ns@, root.value, depth as nat),
            );
            assert(subtree_num_bytes(ns@, layout, root.value, depth as nat) == new_size);
            assert forall|p: int|
                0 <= p < new_size implies #[trigger] subtree_byte(
                ns@,
                layout,
                root.value,
                depth as nat,
                p,
            ) == (if p < blob0.len() {
                blob0[p]
            } else {
                0u8
            }) by {
                if p < subtree_num_bytes(m_pre3, layout, root.value, depth as nat) {
                } else {
                    assert(blob0.len() <= subtree_num_bytes(
                        m_pre3,
                        layout,
                        root.value,
                        depth as nat,
                    ));
                    assert(subtree_byte(ns@, layout, root.value, depth as nat, p) == 0);
                }
            }
        }
        // give the tree its minimal depth back
        let mut settled = false;
        while !settled && depth > 0
            invariant
                ns.wf(),
                layout == ns.spec_layout(),
                layout.valid(),
                valid_subtree(ns@, layout, root.value, depth as nat),
                lmd_subtree(ns@, layout, root.value, depth as nat),
                crate::layout::spec_depth(ns@[root.value]) == depth,
                subtree_num_bytes(ns@, layout, root.value, depth as nat) == new_size,
                blob0 == tree_blob(m0, layout, self.spec_root()),
                forall|p: int|
                    0 <= p < new_size ==> #[trigger] subtree_byte(
                        ns@,
                        layout,
                        root.value,
                        depth as nat,
                        p,
                    ) == (if p < blob0.len() {
                        blob0[p]
                    } else {
                        0u8
                    }),
                settled ==> (depth == 0 || crate::layout::spec_size_field(ns@[root.value]) >= 2),
                tree_evolves(m0, ids0, ns@, subtree_ids(ns@, root.value, depth as nat)),
            decreases depth as int + (if settled { 0int } else { 1int }),
        {
            let node = match ns.load(root) {
                Ok(Some(DataNode::Inner(inner))) => inner,
                _ => {
                    proof {
                        assert(false);
                    }
                    return Err(StoreError::OutOfRange);
                },
            };
            if node.num_children() == 1 {
                let ghost m_pre4 = ns@;
                let ghost ids_pre4 = subtree_ids(m_pre4, root.value, depth as nat);
                collapse_root_once(ns, root, depth);
                depth = depth - 1;
                proof {
                    lemma_ids_in_dom(ns@, layout, root.value, depth as nat);
                    lemma_evolves_shrink_step(
                        m_pre4,
                        ids_pre4,
                        ns@,
                        subtree_ids(ns@, root.value, depth as nat),
                    );
                    lemma_tree_evolves_trans(
                        m0,
                        ids0,
                        m_pre4,
                        ids_pre4,
                        ns@,
                        subtree_ids(ns@, root.value, depth as nat),
                    );
                }
            } else {
                settled = true;
            }
        }
        proof {
            assert(is_tree(ns@, layout, self.spec_root()));
            let blob2 = tree_blob(ns@, layout, self.spec_root());
            assert(blob2.len() == new_size);
            assert forall|p: int| 0 <= p < new_size && p < blob0.len() implies blob2[p]
                == blob0[p] by {
                assert(blob2[p] == subtree_byte(ns@, layout, root.value, depth as nat, p));
            }
            assert forall|p: int| blob0.len() <= p < new_size implies blob2[p] == 0 by {
                assert(blob2[p] == subtree_byte(ns@, layout, root.value, depth as nat, p));
            }
        }
        Ok(())
    }
}

/// The target leaf count and tail size of a resize: enough leaves that all
/// but the last are full, the last holding the remainder.
proof fn lemma_target_counts(layout: NodeLayout, n: nat, l_new: nat)
    requires
        layout.valid(),
        n <= spec_mbl(layout) * spec_capacity(layout, crate::layout::MAX_DEPTH as nat),
        l_new == if n == 0 {
            1nat
        } else {
            crate::arith::spec_div_ceil(n, spec_mbl(layout))
        },
    ensures
        1 <= l_new,
        l_new <= spec_capacity(layout, crate::layout::MAX_DEPTH as nat),
        (l_new - 1) * spec_mbl(layout) <= n,
        n - (l_new - 1) * spec_mbl(layout) <= spec_mbl(layout),
        l_new * spec_mbl(layout) <= n + spec_mbl(layout),
{
    let mbl = spec_mbl(layout);
    let cap = spec_capacity(layout, crate::layout::MAX_DEPTH as nat);
    crate::arith::lemma_pow_pos(spec_k(layout), crate::layout::MAX_DEPTH as nat);
    if n == 0 {
        assert((1 - 1) * mbl == 0);
        assert(1 * mbl == mbl) by (nonlinear_arith);
    } else {
        let q = ((n + mbl - 1) as int) / (mbl as int);
        vstd::arithmetic::div_mod::lemma_fundamental_div_mod((n + mbl - 1) as int, mbl as int);
        let r = ((n + mbl - 1) as int) % (mbl as int);
        vstd::arithmetic::div_mod::lemma_mod_division_less_than_divisor(
            (n + mbl - 1) as int,
            mbl as int,
        );
        assert(mbl as int * q == q * mbl) by (nonlinear_arith);
        assert(n + mbl - 1 == q * mbl + r);
        assert(l_new == q);
        assert(q >= 1) by (nonlinear_arith)
            requires
                n + mbl - 1 == q * mbl + r,
                n >= 1,
                0 <= r < mbl,
                mbl >= 1,
        ;
        assert((q - 1) * mbl < n <= q * mbl) by (nonlinear_arith)
            requires
                n + mbl - 1 == q * mbl + r,
                0 <= r < mbl,
                mbl >= 1,
        ;
        assert(q <= cap) by (nonlinear_arith)
            requires
                (q - 1) * mbl < n,
                n <= mbl * cap,
                mbl >= 1,
                q >= 1,
        ;
        assert(q * mbl <= n + mbl) by (nonlinear_arith)
            requires
                (q - 1) * mbl < n,
        ;
        assert(n - (q - 1) * mbl <= mbl) by (nonlinear_arith)
            requires
                n <= q * mbl,
        ;
    }
}


impl DataTree {
    /// Writes `source` into the blob at `offset`. If the range reaches past
    /// the blob's end, the blob first grows to `offset + source.len()` bytes.
    /// Within an existing blob, only the written range changes.
    pub fn write_bytes(&self, ns: &mut DataNodeStore, source: &Vec<u8>, offset: u64) -> (r: Result<
        (),
        StoreError,
    >)
        requires
            old(ns).wf(),
            is_tree(old(ns)@, old(ns).spec_layout(), self.spec_root()),
            offset + source@.len() <= u64::MAX,
            offset + source@.len() <= spec_mbl(old(ns).spec_layout()) * spec_capacity(
                old(ns).spec_layout(),
                crate::layout::MAX_DEPTH as nat,
            ),
        ensures
            final(ns).wf(),
            final(ns).spec_layout() == old(ns).spec_layout(),
            is_tree(final(ns)@, final(ns).spec_layout(), self.spec_root()),
            ({
                let blob0 = tree_blob(old(ns)@, old(ns).spec_layout(), self.spec_root());
                let blob2 = tree_blob(final(ns)@, final(ns).spec_layout(), self.spec_root());
                &&& blob2.len() == if offset + source@.len() > blob0.len() {
                    offset + source@.len()
                } else {
                    blob0.len() as int
                }
                &&& (forall|p: int|
                    offset <= p < offset + source@.len() ==> blob2[p] == source@[p - offset])
                &&& (forall|p: int|
                    0 <= p < blob2.len() && !(offset <= p < offset + source@.len())
                        ==> blob2[p] == (if p < blob0.len() {
                        blob0[p]
                    } else {
                        0u8
                    }))
            }),
            tree_evolves(
                old(ns)@,
                tree_ids(old(ns)@, self.spec_root()),
                final(ns)@,
                tree_ids(final(ns)@, self.spec_root()),
            ),
            r is Ok,
    {
        let ghost m0 = ns@;
        let ghost layout = ns.spec_layout();
        let ghost ids0 = tree_ids(m0, self.spec_root());
        let ghost blob0 = tree_blob(m0, layout, self.spec_root());
        let root = self.root_id;
        proof {
            ns.lemma_layout_valid();
        }
        let mut depth = root_depth(ns, root);
        let nb0 = num_bytes_rec(ns, root, depth);
        let len = source.len();
        if offset > nb0 || (len as u64) > nb0 - offset {
            match self.resize_num_bytes(ns, offset + len as u64) {
                Ok(()) => {},
                Err(e) => {
                    proof {
                        assert(false);
                    }
                    return Err(e);
                },
            }
            depth = root_depth(ns, root);
        } else {
            proof {
                lemma_ids_in_dom(m0, layout, root.value, depth as nat);
                assert(tree_evolves(m0, ids0, ns@, tree_ids(ns@, self.spec_root())));
            }
        }
        let ghost m1 = ns@;
        let ghost nl = subtree_num_leaves(m1, layout, root.value, depth as nat);
        let ghost nb = subtree_num_bytes(m1, layout, root.value, depth as nat);
        let mbl = ns.layout().max_bytes_per_leaf() as u64;
        proof {
            lemma_counts(m1, layout, root.value, depth as nat);
            lemma_num_leaves_bounded(m1, layout, root.value, depth as nat);
            assert(offset + len <= nb);
        }
        let nb_e = num_bytes_rec(ns, root, depth);
        let nl_e = num_leaves_rec(ns, root, depth);
        let mut done: u64 = 0;
        while (done as usize) < len
            invariant
                ns.wf(),
                layout == ns.spec_layout(),
                layout.valid(),
                valid_subtree(ns@, layout, root.value, depth as nat),
                lmd_subtree(ns@, layout, root.value, depth as nat),
                crate::layout::spec_depth(ns@[root.value]) == depth,
                depth == 0 || crate::layout::spec_size_field(ns@[root.value]) >= 2,
                nl == subtree_num_leaves(ns@, layout, root.value, depth as nat),
                nb == subtree_num_bytes(ns@, layout, root.value, depth as nat),
                nb <= u64::MAX,
                nl <= u64::MAX,
                mbl == spec_mbl(layout),
                mbl >= 1,
                nb <= nl * mbl,
                (nl - 1) * mbl <= nb,
                nb_e == nb,
                nl_e == nl,
                0 <= done <= len,
                len == source@.len(),
                offset + len <= nb,
                subtree_ids(ns@, root.value, depth as nat) == subtree_ids(
                    m1,
                    root.value,
                    depth as nat,
                ),
                ns@.dom() == m1.dom(),
                unchanged_outside(m1, ns@, subtree_ids(m1, root.value, depth as nat)),
                forall|p: int|
                    0 <= p < nb ==> subtree_byte(ns@, layout, root.value, depth as nat, p) == (
                    if offset <= p < offset + done {
                        source@[p - offset]
                    } else {
                        subtree_byte(m1, layout, root.value, depth as nat, p)
                    }),
                tree_evolves(m0, ids0, m1, subtree_ids(m1, root.value, depth as nat)),
            decreases len - done,
        {
            let ghost m_pre = ns@;
            let pos = offset + done;
            let leaf_idx = pos / mbl;
            let in_leaf = pos % mbl;
            proof {
                assert(pos < nb);
                vstd::arithmetic::div_mod::lemma_multiply_divide_lt(
                    pos as int,
                    mbl as int,
                    nl as int,
                );
                assert(mbl as int * nl as int == nl * mbl) by (nonlinear_arith);
                vstd::arithmetic::div_mod::lemma_mod_division_less_than_divisor(
                    pos as int,
                    mbl as int,
                );
                lemma_nav(ns@, layout, root.value, depth as nat, leaf_idx as nat);
            }
            let ghost lid = subtree_leaf_id(ns@, layout, root.value, depth as nat, leaf_idx as nat);
            let ghost leaf_size = crate::layout::spec_size_field(ns@[lid]);
            proof {
                vstd::arithmetic::div_mod::lemma_fundamental_div_mod(pos as int, mbl as int);
                assert(mbl as int * (leaf_idx as int) == (leaf_idx as int) * (mbl as int))
                    by (nonlinear_arith);
                assert(pos == leaf_idx * mbl + in_leaf);
                if leaf_idx as nat == (nl - 1) as nat {
                    assert(leaf_size == nb - (nl - 1) * mbl);
                } else {
                    assert(leaf_size == mbl);
                    assert((leaf_idx + 1) * mbl <= (nl as int - 1) * mbl) by (nonlinear_arith)
                        requires
                            leaf_idx + 1 <= nl as int - 1,
                            mbl >= 0,
                    ;
                    assert((leaf_idx + 1) * mbl == leaf_idx * mbl + mbl) by (nonlinear_arith);
                    assert((nl as int - 1) * mbl <= nb);
                }
            }
            let take_leaf = if leaf_idx == nl_e - 1 {
                nb_e - offset - done
            } else {
                mbl - in_leaf
            };
            proof {
                assert(in_leaf + take_leaf <= leaf_size || leaf_idx == nl as u64 - 1);
                if leaf_idx == nl as u64 - 1 {
                    assert(in_leaf + take_leaf == leaf_size + (pos - leaf_idx * mbl - in_leaf));
                }
            }
            let remaining = (len - done as usize) as u64;
            let take = if take_leaf < remaining {
                take_leaf
            } else {
                remaining
            };
            let chunk = vstd::slice::slice_subrange(
                source.as_slice(),
                done as usize,
                (done + take) as usize,
            );
            proof {
                assert(in_leaf + take <= leaf_size);
            }
            write_leaf_data(ns, root, depth, leaf_idx, in_leaf, chunk);
            proof {
                assert forall|p: int|
                    0 <= p < nb implies subtree_byte(ns@, layout, root.value, depth as nat, p)
                    == (if offset <= p < offset + done + take {
                    source@[p - offset]
                } else {
                    subtree_byte(m1, layout, root.value, depth as nat, p)
                }) by {
                    if leaf_idx * mbl + in_leaf <= p < leaf_idx * mbl + in_leaf + take {
                        assert(subtree_byte(ns@, layout, root.value, depth as nat, p)
                            == chunk@[p - (leaf_idx * mbl + in_leaf) as int]);
                        assert(chunk@[p - (leaf_idx * mbl + in_leaf) as int] == source@[p - offset]);
                    }
                }
            }
            done = done + take;
        }
        proof {
            let blob2 = tree_blob(ns@, layout, self.spec_root());
            let blob1 = tree_blob(m1, layout, self.spec_root());
            assert(blob2.len() == nb);
            assert forall|p: int|
                offset <= p < offset + source@.len() implies blob2[p] == source@[p - offset] by {}
            assert forall|p: int|
                0 <= p < blob2.len() && !(offset <= p < offset + source@.len()) implies blob2[p]
                == (if p < blob0.len() {
                blob0[p]
            } else {
                0u8
            }) by {
                assert(blob2[p] == subtree_byte(ns@, layout, root.value, depth as nat, p));
                assert(subtree_byte(ns@, layout, root.value, depth as nat, p) == subtree_byte(
                    m1,
                    layout,
                    root.value,
                    depth as nat,
                    p,
                ));
                assert(subtree_byte(m1, layout, root.value, depth as nat, p) == blob1[p]);
                if m1 == m0 {
                } else {
                    // the blob was grown first; growth keeps the old bytes
                    // and reveals zeroes
                    assert(blob1.len() == offset + source@.len());
                }
            }
            lemma_tree_evolves_trans(
                m0,
                ids0,
                m1,
                subtree_ids(m1, root.value, depth as nat),
                ns@,
                subtree_ids(ns@, root.value, depth as nat),
            );
            assert(tree_evolves(m1, subtree_ids(m1, root.value, depth as nat), ns@, subtree_ids(ns@, root.value, depth as nat))) by {
                lemma_ids_in_dom(ns@, layout, root.value, depth as nat);
            }
        }
        Ok(())
    }
}

/// Writing a range and reading it back yields the bytes written: a blob that
/// holds `data` at `offset`, as `write_bytes` leaves it, reads back as `data`
/// over that range, as `read_bytes` returns it.
pub proof fn lemma_write_read_round_trip(blob2: Seq<u8>, data: Seq<u8>, offset: int)
    requires
        0 <= offset,
        offset + data.len() <= blob2.len(),
        forall|p: int| offset <= p < offset + data.len() ==> blob2[p] == data[p - offset],
    ensures
        blob2.subrange(offset, offset + data.len()) == data,
{
    assert(blob2.subrange(offset, offset + data.len()) =~= data);
}


impl DataTree {
    /// The ids of every block of the tree, each exactly once.
    pub fn all_blocks(&self, ns: &DataNodeStore) -> (r: Result<Vec<BlockId>, StoreError>)
        requires
            ns.wf(),
            is_tree(ns@, ns.spec_layout(), self.spec_root()),
        ensures
            r matches Ok(v) ==> {
                &&& v@.len() == subtree_num_nodes(
                    ns@,
                    self.spec_root(),
                    tree_depth(ns@, self.spec_root()),
                )
                &&& (forall|i: int|
                    0 <= i < v@.len() ==> tree_ids(ns@, self.spec_root()).contains(
                        #[trigger] v@[i].value,
                    ))
                &&& (forall|i: int, j: int|
                    0 <= i < j < v@.len() ==> v@[i].value != v@[j].value)
                &&& (forall|x: u128|
                    #[trigger] tree_ids(ns@, self.spec_root()).contains(x) ==> exists|i: int|
                        0 <= i < v@.len() && v@[i].value == x)
            },
            r is Ok,
    {
        let ghost m = ns@;
        let ghost layout = ns.spec_layout();
        let ghost depth = tree_depth(ns@, self.spec_root());
        proof {
            ns.lemma_layout_valid();
            crate::data_node_store::lemma_node_store_dom_bounded(ns);
            crate::tree_model::lemma_num_nodes_card(m, layout, self.spec_root(), depth);
            lemma_ids_in_dom(m, layout, self.spec_root(), depth);
            assert(subtree_ids(m, self.spec_root(), depth).subset_of(m.dom()));
            vstd::set_lib::lemma_len_subset(subtree_ids(m, self.spec_root(), depth), m.dom());
        }
        let depth = root_depth(ns, self.root_id);
        let mut out: Vec<BlockId> = Vec::new();
        all_blocks_rec(ns, self.root_id, depth, &mut out);
        Ok(out)
    }
}

/// Collects the ids of the subtree's blocks, the root first: every id of the
/// subtree appears exactly once.
fn all_blocks_rec(ns: &DataNodeStore, id: BlockId, depth: u8, out: &mut Vec<BlockId>)
    requires
        ns.wf(),
        valid_subtree(ns@, ns.spec_layout(), id.value, depth as nat),
        subtree_num_nodes(ns@, id.value, depth as nat) + old(out)@.len() <= u64::MAX,
    ensures
        final(out)@.len() == old(out)@.len() + subtree_num_nodes(ns@, id.value, depth as nat),
        forall|i: int| 0 <= i < old(out)@.len() ==> final(out)@[i] == old(out)@[i],
        forall|i: int|
            old(out)@.len() <= i < final(out)@.len() ==> subtree_ids(
                ns@,
                id.value,
                depth as nat,
            ).contains(#[trigger] final(out)@[i].value),
        forall|i: int, j: int|
            old(out)@.len() <= i < j < final(out)@.len() ==> final(out)@[i].value
                != final(out)@[j].value,
        forall|x: u128|
            #[trigger] subtree_ids(ns@, id.value, depth as nat).contains(x) ==> exists|i: int|
                old(out)@.len() <= i < final(out)@.len() && final(out)@[i].value == x,
    decreases depth, 1int,
{
    let ghost m = ns@;
    let ghost layout = ns.spec_layout();
    match ns.load(id) {
        Ok(Some(DataNode::Leaf(leaf))) => {
            proof {
                if depth > 0 {
                    assert(false);
                }
            }
            out.push(id);
            proof {
                assert(out@[old(out)@.len() as int].value == id.value);
            }
        },
        Ok(Some(DataNode::Inner(inner))) => {
            proof {
                if depth == 0 {
                    assert(false);
                }
            }
            let ghost b = m[id.value];
            let ghost cdepth = (depth - 1) as nat;
            out.push(id);
            let nc = inner.num_children();
            let mut i: u32 = 0;
            proof {
                lemma_children_num_nodes_mono(m, layout, b, cdepth, nc as nat);
                assert(children_ids(m, b, cdepth, 0) =~= Set::<u128>::empty());
            }
            while i < nc
                invariant
                    ns.wf(),
                    m == ns@,
                    layout == ns.spec_layout(),
                    b == m[id.value],
                    0 <= i <= nc,
                    depth >= 1,
                    cdepth == (depth - 1) as nat,
                    inner.wf(),
                    inner.spec_block() == b,
                    inner.spec_num_children() == nc,
                    valid_subtree(m, layout, id.value, depth as nat),
                    subtree_num_nodes(m, id.value, depth as nat) + old(out)@.len() <= u64::MAX,
                    out@.len() == old(out)@.len() + 1 + children_num_nodes(m, b, cdepth, i as nat),
                    forall|j: int| 0 <= j < old(out)@.len() ==> out@[j] == old(out)@[j],
                    out@[old(out)@.len() as int].value == id.value,
                    forall|j: int|
                        old(out)@.len() + 1 <= j < out@.len() ==> children_ids(
                            m,
                            b,
                            cdepth,
                            i as nat,
                        ).contains(#[trigger] out@[j].value),
                    forall|j: int, k: int|
                        old(out)@.len() <= j < k < out@.len() ==> out@[j].value != out@[k].value,
                    forall|x: u128|
                        #[trigger] children_ids(m, b, cdepth, i as nat).contains(x) ==> exists|
                            j: int,
                        |
                            old(out)@.len() + 1 <= j < out@.len() && out@[j].value == x,
                    forall|j: nat|
                        j <= nc ==> children_num_nodes(m, b, cdepth, j) <= children_num_nodes(
                            m,
                            b,
                            cdepth,
                            nc as nat,
                        ),
                decreases nc - i,
            {
                let child = inner.child(i);
                let ghost cids = subtree_ids(m, child.value, cdepth);
                proof {
                    lemma_children_index(m, layout, b, cdepth, nc as nat, i as int);
                    assert(children_num_nodes(m, b, cdepth, (i + 1) as nat) == children_num_nodes(
                        m,
                        b,
                        cdepth,
                        i as nat,
                    ) + subtree_num_nodes(m, child.value, cdepth));
                    crate::tree_model::lemma_child_ids_subset(m, b, cdepth, i as int, nc as nat);
                    lemma_children_prefix(m, layout, b, cdepth, (i + 1) as nat, nc as nat);
                    assert(children_ids(m, b, cdepth, i as nat).disjoint(cids));
                    assert(!children_ids(m, b, cdepth, nc as nat).contains(id.value));
                    assert(!cids.contains(id.value));
                }
                let ghost before = out@;
                all_blocks_rec(ns, child, depth - 1, out);
                proof {
                    // new entries belong to the new child; old entries stay
                    // where they were, so the two groups cannot collide
                    assert forall|j: int|
                        old(out)@.len() + 1 <= j < out@.len() implies children_ids(
                        m,
                        b,
                        cdepth,
                        (i + 1) as nat,
                    ).contains(#[trigger] out@[j].value) by {
                        if j >= before.len() {
                            assert(cids.contains(out@[j].value));
                        } else {
                            assert(out@[j] == before[j]);
                            assert(children_ids(m, b, cdepth, i as nat).contains(out@[j].value));
                        }
                    }
                    assert forall|j: int, k: int|
                        old(out)@.len() <= j < k < out@.len() implies out@[j].value
                        != out@[k].value by {
                        if k < before.len() {
                        } else if j < before.len() {
                            assert(cids.contains(out@[k].value));
                            if j == old(out)@.len() {
                                assert(out@[j].value == id.value);
                            } else {
                                assert(children_ids(m, b, cdepth, i as nat).contains(
                                    out@[j].value,
                                ));
                            }
                        }
                    }
                    assert forall|x: u128|
                        #[trigger] children_ids(m, b, cdepth, (i + 1) as nat).contains(
                        x,
                    ) implies exists|j: int|
                        old(out)@.len() + 1 <= j < out@.len() && out@[j].value == x by {
                        if children_ids(m, b, cdepth, i as nat).contains(x) {
                            let j = choose|j: int|
                                old(out)@.len() + 1 <= j < before.len() && before[j].value == x;
                            assert(out@[j].value == x);
                        } else {
                            assert(cids.contains(x));
                            let j = choose|j: int|
                                before.len() <= j < out@.len() && out@[j].value == x;
                            assert(out@[j].value == x);
                        }
                    }
                }
                i = i + 1;
            }
            proof {
                assert(subtree_ids(m, id.value, depth as nat) =~= children_ids(
                    m,
                    b,
                    cdepth,
                    nc as nat,
                ).insert(id.value));
                assert forall|x: u128|
                    #[trigger] subtree_ids(m, id.value, depth as nat).contains(x) implies exists|
                        j: int,
                    |
                        old(out)@.len() <= j < out@.len() && out@[j].value == x by {
                    if x == id.value {
                        assert(out@[old(out)@.len() as int].value == x);
                    } else {
                        assert(children_ids(m, b, cdepth, nc as nat).contains(x));
                        let j = choose|j: int|
                            old(out)@.len() + 1 <= j < out@.len() && out@[j].value == x;
                        assert(out@[j].value == x);
                    }
                }
            }
        },
        _ => {
            proof {
                assert(false);
            }
        },
    }
}

} // verus!
