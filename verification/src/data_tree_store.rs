use vstd::prelude::*;

use crate::RemoveResult;
use crate::StoreError;
use crate::block_id::BlockId;
use crate::block_store::InMemoryBlockStore;
use crate::data_node::DataNode;
use crate::data_node_store::DataNodeStore;
use crate::data_node_store::is_node_bytes;
use crate::data_tree::DataTree;
use crate::layout::NodeLayout;
use crate::layout::spec_depth;
use crate::tree_model::is_tree;
use crate::tree_model::tree_blob;
use crate::tree_model::tree_ids;

verus! {

/// Creates, loads and removes whole trees by their root id; owns the node
/// store the trees live in.
pub struct DataTreeStore {
    pub node_store: DataNodeStore,
}

impl View for DataTreeStore {
    type V = crate::tree_model::BlockMap;

    /// The stored blocks, as a map from id to contents.
    closed spec fn view(&self) -> crate::tree_model::BlockMap {
        self.node_store@
    }
}

impl DataTreeStore {
    pub closed spec fn wf(&self) -> bool {
        self.node_store.wf()
    }

    pub closed spec fn spec_layout(&self) -> NodeLayout {
        self.node_store.spec_layout()
    }

    /// Builds the tree layer atop a block store, as the node layer does.
    pub fn new(block_store: InMemoryBlockStore, block_size_bytes: u32) -> (r: Result<
        DataTreeStore,
        InMemoryBlockStore,
    >)
        requires
            block_store.wf(),
            crate::data_node_store::store_blocks_ok(
                block_store@,
                (NodeLayout { block_size_bytes }),
            ),
        ensures
            r is Ok <==> (NodeLayout { block_size_bytes }).valid(),
            r matches Ok(s) ==> {
                &&& s.wf()
                &&& s@ == block_store@
                &&& s.spec_layout() == (NodeLayout { block_size_bytes })
            },
    {
        match DataNodeStore::new(block_store, block_size_bytes) {
            Ok(node_store) => Ok(DataTreeStore { node_store }),
            Err(b) => Err(b),
        }
    }

    /// Borrows the node store the trees live in.
    pub fn node_store(&self) -> (r: &DataNodeStore)
        ensures
            r.wf() == self.wf(),
            r@ == self@,
            r.spec_layout() == self.spec_layout(),
    {
        &self.node_store
    }

    /// A handle on the tree rooted at `root_node_id`, if a root block exists
    /// there; a corrupt-node error if the block does not parse.
    pub fn load_tree(&self, root_node_id: BlockId) -> (r: Result<Option<DataTree>, StoreError>)
        requires
            self.wf(),
        ensures
            r matches Ok(opt) ==> (opt is Some <==> self@.dom().contains(root_node_id.value)
                && is_node_bytes(self.spec_layout(), self@[root_node_id.value])),
            r matches Ok(Some(t)) ==> t.spec_root() == root_node_id.value,
            (r matches Ok(None)) <==> !self@.dom().contains(root_node_id.value),
            r is Err <==> (self@.dom().contains(root_node_id.value) && !is_node_bytes(
                self.spec_layout(),
                self@[root_node_id.value],
            )),
    {
        match self.node_store.load(root_node_id) {
            Ok(Some(_)) => Ok(Some(DataTree::new(root_node_id))),
            Ok(None) => Ok(None),
            Err(e) => Err(e),
        }
    }

    /// Creates a tree holding the empty blob: a single empty leaf under a
    /// fresh root id.
    pub fn create_tree(&mut self) -> (r: Result<DataTree, StoreError>)
        requires
            old(self).wf(),
        ensures
            final(self).wf(),
            final(self).spec_layout() == old(self).spec_layout(),
            r matches Ok(t) ==> {
                &&& !old(self)@.dom().contains(t.spec_root())
                &&& final(self)@ == old(self)@.insert(
                    t.spec_root(),
                    final(self)@[t.spec_root()],
                )
                &&& is_tree(final(self)@, final(self).spec_layout(), t.spec_root())
                &&& tree_blob(final(self)@, final(self).spec_layout(), t.spec_root())
                    == Seq::<u8>::empty()
            },
            r is Ok,
    {
        let empty: Vec<u8> = Vec::new();
        let leaf = self.node_store.create_new_leaf_node(&empty);
        let root = *leaf.block_id();
        let t = DataTree::new(root);
        proof {
            lemma_single_leaf_tree(self@, self.spec_layout(), root.value);
        }
        Ok(t)
    }

    /// Creates a tree holding the empty blob under the caller-chosen root id;
    /// refuses an id already in use.
    pub fn try_create_tree(&mut self, id: BlockId) -> (r: Result<Option<DataTree>, StoreError>)
        requires
            old(self).wf(),
        ensures
            final(self).wf(),
            final(self).spec_layout() == old(self).spec_layout(),
            r matches Ok(opt) ==> {
                &&& (opt is Some <==> !old(self)@.dom().contains(id.value))
                &&& (opt is None ==> final(self)@ == old(self)@)
            },
            r matches Ok(Some(t)) ==> {
                &&& t.spec_root() == id.value
                &&& final(self)@ == old(self)@.insert(id.value, final(self)@[id.value])
                &&& is_tree(final(self)@, final(self).spec_layout(), t.spec_root())
                &&& tree_blob(final(self)@, final(self).spec_layout(), t.spec_root())
                    == Seq::<u8>::empty()
            },
            r is Ok,
    {
        let empty: Vec<u8> = Vec::new();
        match self.node_store.try_create_new_leaf_node(id, &empty) {
            Some(leaf) => {
                let t = DataTree::new(id);
                proof {
                    lemma_single_leaf_tree(self@, self.spec_layout(), id.value);
                }
                Ok(Some(t))
            },
            None => Ok(None),
        }
    }

    /// Removes the tree rooted at `root_node_id` with every node under it;
    /// says whether one existed.
    pub fn remove_tree_by_id(&mut self, root_node_id: BlockId) -> (r: Result<
        RemoveResult,
        StoreError,
    >)
        requires
            old(self).wf(),
            old(self)@.dom().contains(root_node_id.value) ==> is_tree(
                old(self)@,
                old(self).spec_layout(),
                root_node_id.value,
            ),
        ensures
            final(self).wf(),
            final(self).spec_layout() == old(self).spec_layout(),
            r matches Ok(res) ==> {
                &&& (res == RemoveResult::SuccessfullyRemoved <==> old(self)@.dom().contains(
                    root_node_id.value,
                ))
                &&& (old(self)@.dom().contains(root_node_id.value) ==> final(self)@ == old(
                    self,
                )@.remove_keys(tree_ids(old(self)@, root_node_id.value)))
                &&& (!old(self)@.dom().contains(root_node_id.value) ==> final(self)@ == old(
                    self,
                )@)
            },
            r is Ok,
    {
        match self.load_tree(root_node_id) {
            Ok(Some(tree)) => {
                let res = tree.remove(&mut self.node_store);
                match res {
                    Ok(()) => Ok(RemoveResult::SuccessfullyRemoved),
                    Err(e) => {
                        proof {
                            assert(false);
                        }
                        Err(e)
                    },
                }
            },
            Ok(None) => Ok(RemoveResult::NotRemovedBecauseItDoesntExist),
            Err(e) => {
                proof {
                    let m = old(self)@;
                    let root = root_node_id.value;
                    if m.dom().contains(root) {
                        let depth = crate::tree_model::tree_depth(m, root);
                        assert(crate::tree_model::valid_subtree(
                            m,
                            old(self).spec_layout(),
                            root,
                            depth,
                        ));
                        assert(is_node_bytes(old(self).spec_layout(), m[root]));
                    }
                    assert(false);
                }
                Err(e)
            },
        }
    }

    /// How many nodes the store holds, over all trees.
    pub fn num_nodes(&self) -> (r: Result<u64, StoreError>)
        requires
            self.wf(),
        ensures
            r matches Ok(n) && n == self@.dom().len(),
    {
        Ok(self.node_store.num_nodes())
    }

    /// How many more blocks fit into the store's free space.
    pub fn estimate_space_for_num_blocks_left(&self) -> (r: Result<u64, StoreError>)
        requires
            self.wf(),
        ensures
            r matches Ok(n) && n == u64::MAX as nat / self.spec_layout().block_size_bytes as nat,
    {
        Ok(self.node_store.estimate_space_for_num_blocks_left())
    }

    /// How many blob bytes each block contributes: one leaf's capacity.
    pub fn virtual_block_size_bytes(&self) -> (r: u32)
        requires
            self.wf(),
        ensures
            r == self.spec_layout().spec_max_bytes_per_leaf(),
    {
        self.node_store.virtual_block_size_bytes()
    }

    /// The depth of the node stored under `id`, if there is one: zero for a
    /// leaf, up to the cap for an inner node. Fails exactly on a block whose
    /// header does not parse as a node.
    pub fn load_block_depth(&self, id: &BlockId) -> (r: Result<Option<u8>, StoreError>)
        requires
            self.wf(),
        ensures
            r matches Ok(Some(d)) ==> self@.dom().contains(id.value) && d == spec_depth(
                self@[id.value],
            ) && d <= crate::layout::MAX_DEPTH,
            (r matches Ok(None)) <==> !self@.dom().contains(id.value),
            r is Err <==> (self@.dom().contains(id.value) && !is_node_bytes(
                self.spec_layout(),
                self@[id.value],
            )),
    {
        match self.node_store.load(*id) {
            Ok(Some(node)) => {
                let d = node.depth();
                Ok(Some(d))
            },
            Ok(None) => Ok(None),
            Err(e) => Err(e),
        }
    }

    /// The store writes through; there is no cache to clear.
    pub fn clear_cache_slow(&mut self) -> (r: Result<(), StoreError>)
        requires
            old(self).wf(),
        ensures
            *final(self) == *old(self),
            r is Ok,
    {
        Ok(())
    }
}

/// The block `b` names `x` among its children.
pub open spec fn spec_references(b: Seq<u8>, x: u128) -> bool {
    exists|i: int|
        0 <= i < crate::layout::spec_size_field(b) && crate::data_node::spec_child_id(b, i) == x
}

/// Some inner block of the store names `x` among its children.
pub open spec fn spec_is_child_of_some(
    m: crate::tree_model::BlockMap,
    layout: NodeLayout,
    x: u128,
) -> bool {
    exists|pid: u128|
        #[trigger] m.dom().contains(pid) && crate::data_node::is_inner_bytes(layout, m[pid])
            && spec_references(m[pid], x)
}

/// Some inner block among the first `n` listed ids names `x`.
pub open spec fn spec_child_of_prefix(
    m: crate::tree_model::BlockMap,
    layout: NodeLayout,
    ids: Seq<BlockId>,
    n: int,
    x: u128,
) -> bool {
    exists|j: int|
        0 <= j < n && crate::data_node::is_inner_bytes(layout, m[#[trigger] ids[j].value])
            && spec_references(m[ids[j].value], x)
}

/// Every stored block that no inner block names is listed among `v`.
pub open spec fn spec_covers_roots(
    m: crate::tree_model::BlockMap,
    layout: NodeLayout,
    v: Seq<BlockId>,
) -> bool {
    forall|x: u128|
        #[trigger] m.dom().contains(x) && !spec_is_child_of_some(m, layout, x) ==> exists|k: int|
            0 <= k < v.len() && v[k].value == x
}

/// Whether the list holds `x`.
fn contains_value(v: &Vec<u128>, x: u128) -> (r: bool)
    ensures
        r <==> v@.contains(x),
{
    let n = v.len();
    let mut i: usize = 0;
    while i < n
        invariant
            0 <= i <= n,
            n == v@.len(),
            forall|k: int| 0 <= k < i ==> v@[k] != x,
        decreases n - i,
    {
        if v[i] == x {
            return true;
        }
        i = i + 1;
    }
    false
}

impl DataTreeStore {
    /// The ids of all tree roots: every stored block that no inner block
    /// names as a child, each exactly once. It loads every block, so it is
    /// only fit for inspection; a corrupt block fails the walk.
    #[verifier::rlimit(100)]
    #[verifier::spinoff_prover]
    pub fn all_tree_roots(&self) -> (r: Result<Vec<BlockId>, StoreError>)
        requires
            self.wf(),
        ensures
            r is Err <==> (exists|x: u128|
                #[trigger] self@.dom().contains(x) && !is_node_bytes(
                    self.spec_layout(),
                    self@[x],
                )),
            r matches Ok(v) ==> (forall|k: int|
                0 <= k < v@.len() ==> self@.dom().contains(#[trigger] v@[k].value)
                    && !spec_is_child_of_some(self@, self.spec_layout(), v@[k].value)),
            r matches Ok(v) ==> spec_covers_roots(self@, self.spec_layout(), v@),
            r matches Ok(v) ==> (forall|k1: int, k2: int|
                0 <= k1 < k2 < v@.len() ==> v@[k1].value != v@[k2].value),
    {
        let ghost m = self@;
        let ghost layout = self.spec_layout();
        let all = self.node_store.all_nodes();
        let n = all.len();
        let mut children: Vec<u128> = Vec::new();
        let mut i: usize = 0;
        while i < n
            invariant
                self.wf(),
                m == self@,
                layout == self.spec_layout(),
                0 <= i <= n,
                n == all@.len(),
                forall|k: int| 0 <= k < n ==> m.dom().contains(#[trigger] all@[k].value),
                forall|x: u128| #[trigger] m.dom().contains(x) ==> exists|k: int|
                    0 <= k < n && all@[k].value == x,
                forall|j: int, k: int| 0 <= j < k < n ==> all@[j].value != all@[k].value,
                forall|j: int|
                    0 <= j < i ==> is_node_bytes(layout, m[#[trigger] all@[j].value]),
                forall|x: u128|
                    children@.contains(x) <==> spec_child_of_prefix(
                        m,
                        layout,
                        all@,
                        i as int,
                        x,
                    ),
            decreases n - i,
        {
            let ghost pre = children@;
            match self.node_store.load(all[i]) {
                Ok(Some(DataNode::Inner(inner))) => {
                    let cs = inner.children();
                    let nc = cs.len();
                    let ghost b = m[all@[i as int].value];
                    proof {
                        assert(inner.spec_block() == b);
                        assert forall|k: int|
                            0 <= k < nc implies cs@[k].value == crate::data_node::spec_child_id(
                            b,
                            k,
                        ) by {
                            assert(cs@[k].value == inner.spec_child(k));
                        }
                    }
                    let mut c: usize = 0;
                    while c < nc
                        invariant
                            0 <= c <= nc,
                            nc == cs@.len(),
                            inner.wf(),
                            inner.spec_block() == b,
                            inner.spec_num_children() == nc,
                            forall|k: int|
                                0 <= k < nc ==> cs@[k].value == crate::data_node::spec_child_id(
                                    b,
                                    k,
                                ),
                            children@.len() == pre.len() + c,
                            forall|k: int| 0 <= k < pre.len() ==> children@[k] == pre[k],
                            forall|k: int|
                                pre.len() <= k < children@.len() ==> children@[k]
                                    == cs@[k - pre.len()].value,
                        decreases nc - c,
                    {
                        proof {
                            assert(cs@[c as int].value == inner.spec_child(c as int));
                        }
                        children.push(cs[c].value);
                        c = c + 1;
                    }
                    proof {
                        lemma_prefix_step_inner(m, layout, all@, i as int, pre, children@, b);
                    }
                },
                Ok(Some(DataNode::Leaf(_))) => {
                    proof {
                        lemma_prefix_step_leaf(m, layout, all@, i as int, children@);
                    }
                },
                Ok(None) => {
                    proof {
                        assert(m.dom().contains(all@[i as int].value));
                        assert(false);
                    }
                },
                Err(e) => {
                    proof {
                        assert(m.dom().contains(all@[i as int].value) && !is_node_bytes(
                            layout,
                            m[all@[i as int].value],
                        ));
                    }
                    return Err(e);
                },
            }
            i = i + 1;
        }
        proof {
            assert forall|x: u128| #[trigger] m.dom().contains(x) implies is_node_bytes(
                layout,
                m[x],
            ) by {
                let k = choose|k: int| 0 <= k < n && all@[k].value == x;
                assert(is_node_bytes(layout, m[all@[k].value]));
            }
        }
        proof {
            assert forall|x: u128|
                spec_child_of_prefix(m, layout, all@, n as int, x) <==> spec_is_child_of_some(
                    m,
                    layout,
                    x,
                ) by {
                if spec_child_of_prefix(m, layout, all@, n as int, x) {
                    let j = choose|j: int|
                        0 <= j < n && crate::data_node::is_inner_bytes(
                            layout,
                            m[#[trigger] all@[j].value],
                        ) && spec_references(m[all@[j].value], x);
                    assert(m.dom().contains(all@[j].value));
                    assert(spec_is_child_of_some(m, layout, x));
                }
                if spec_is_child_of_some(m, layout, x) {
                    let pid = choose|pid: u128|
                        #[trigger] m.dom().contains(pid) && crate::data_node::is_inner_bytes(
                            layout,
                            m[pid],
                        ) && spec_references(m[pid], x);
                    let j = choose|j: int| 0 <= j < n && all@[j].value == pid;
                    assert(crate::data_node::is_inner_bytes(layout, m[all@[j].value]));
                    assert(spec_child_of_prefix(m, layout, all@, n as int, x));
                }
            }
        }
        let mut roots: Vec<BlockId> = Vec::new();
        let mut i: usize = 0;
        while i < n
            invariant
                0 <= i <= n,
                n == all@.len(),
                forall|k: int| 0 <= k < n ==> m.dom().contains(#[trigger] all@[k].value),
                forall|j: int, k: int| 0 <= j < k < n ==> all@[j].value != all@[k].value,
                forall|x: u128|
                    children@.contains(x) <==> spec_child_of_prefix(m, layout, all@, n as int, x),
                forall|x: u128|
                    spec_child_of_prefix(m, layout, all@, n as int, x) <==> spec_is_child_of_some(
                        m,
                        layout,
                        x,
                    ),
                forall|k: int|
                    0 <= k < roots@.len() ==> m.dom().contains(#[trigger] roots@[k].value)
                        && !spec_is_child_of_some(m, layout, roots@[k].value),
                forall|j: int|
                    0 <= j < i && !spec_is_child_of_some(m, layout, #[trigger] all@[j].value)
                        ==> exists|k: int| 0 <= k < roots@.len() && roots@[k].value == all@[j].value,
                forall|k: int|
                    0 <= k < roots@.len() ==> exists|j: int|
                        0 <= j < i && #[trigger] roots@[k] == #[trigger] all@[j],
                forall|k1: int, k2: int|
                    0 <= k1 < k2 < roots@.len() ==> roots@[k1].value != roots@[k2].value,
            decreases n - i,
        {
            let present = contains_value(&children, all[i].value);
            if !present {
                let ghost pre_roots = roots@;
                roots.push(all[i]);
                proof {
                    assert(!spec_is_child_of_some(m, layout, all@[i as int].value));
                    assert forall|k1: int, k2: int|
                        0 <= k1 < k2 < roots@.len() implies roots@[k1].value
                        != roots@[k2].value by {
                        if k2 == roots@.len() - 1 {
                            let j = choose|j: int| 0 <= j < i && pre_roots[k1] == all@[j];
                            assert(roots@[k1] == all@[j]);
                        }
                    }
                    assert forall|j: int|
                        0 <= j < i + 1 && !spec_is_child_of_some(
                            m,
                            layout,
                            #[trigger] all@[j].value,
                        ) implies exists|k: int|
                        0 <= k < roots@.len() && roots@[k].value == all@[j].value by {
                        if j == i {
                            assert(roots@[roots@.len() - 1].value == all@[j].value);
                        } else {
                            let k = choose|k: int|
                                0 <= k < pre_roots.len() && pre_roots[k].value == all@[j].value;
                            assert(roots@[k].value == all@[j].value);
                        }
                    }
                }
            } else {
                proof {
                    assert(children@.contains(all@[i as int].value));
                    assert(spec_is_child_of_some(m, layout, all@[i as int].value));
                    assert forall|j: int|
                        0 <= j < i + 1 && !spec_is_child_of_some(
                            m,
                            layout,
                            #[trigger] all@[j].value,
                        ) implies exists|k: int|
                        0 <= k < roots@.len() && roots@[k].value == all@[j].value by {
                        assert(j != i);
                    }
                }
            }
            i = i + 1;
        }
        proof {
            assert forall|x: u128|
                #[trigger] m.dom().contains(x) && !spec_is_child_of_some(m, layout, x) implies exists|
                k: int,
            |
                0 <= k < roots@.len() && roots@[k].value == x by {
                let j = choose|j: int| 0 <= j < n && all@[j].value == x;
                assert(!spec_is_child_of_some(m, layout, all@[j].value));
                let k = choose|k: int|
                    0 <= k < roots@.len() && roots@[k].value == all@[j].value;
                assert(roots@[k].value == x);
            }
            assert(forall|k: int|
                0 <= k < roots@.len() ==> m.dom().contains(#[trigger] roots@[k].value)
                    && !spec_is_child_of_some(m, layout, roots@[k].value));
            assert(forall|k1: int, k2: int|
                0 <= k1 < k2 < roots@.len() ==> roots@[k1].value != roots@[k2].value);
            assert(!(exists|x: u128|
                #[trigger] m.dom().contains(x) && !is_node_bytes(layout, m[x])));
            assert(spec_covers_roots(m, layout, roots@)) by {
                assert forall|x: u128|
                    #[trigger] m.dom().contains(x) && !spec_is_child_of_some(
                        m,
                        layout,
                        x,
                    ) implies exists|k: int| 0 <= k < roots@.len() && roots@[k].value == x by {
                    let j = choose|j: int| 0 <= j < n && all@[j].value == x;
                    assert(!spec_is_child_of_some(m, layout, all@[j].value));
                    let k = choose|k: int|
                        0 <= k < roots@.len() && roots@[k].value == all@[j].value;
                    assert(roots@[k].value == x);
                }
            }
        }
        Ok(roots)
    }
}

/// Stepping the child-reference set past a leaf block changes nothing: a leaf
/// is no inner node and names no children.
proof fn lemma_prefix_step_leaf(
    m: crate::tree_model::BlockMap,
    layout: NodeLayout,
    ids: Seq<BlockId>,
    i: int,
    children: Seq<u128>,
)
    requires
        0 <= i < ids.len(),
        crate::data_node::is_leaf_bytes(layout, m[ids[i].value]),
        forall|x: u128| children.contains(x) <==> spec_child_of_prefix(m, layout, ids, i, x),
    ensures
        forall|x: u128| children.contains(x) <==> spec_child_of_prefix(m, layout, ids, i + 1, x),
{
    assert forall|x: u128| children.contains(x) <==> spec_child_of_prefix(
        m,
        layout,
        ids,
        i + 1,
        x,
    ) by {
        if spec_child_of_prefix(m, layout, ids, i + 1, x) {
            let j = choose|j: int|
                0 <= j < i + 1 && crate::data_node::is_inner_bytes(layout, m[ids[j].value])
                    && spec_references(m[ids[j].value], x);
            if j == i {
                assert(spec_depth(m[ids[i].value]) == 0);
                assert(false);
            }
            assert(spec_child_of_prefix(m, layout, ids, i, x));
        }
        if children.contains(x) {
            let j = choose|j: int|
                0 <= j < i && crate::data_node::is_inner_bytes(layout, m[ids[j].value])
                    && spec_references(m[ids[j].value], x);
            assert(spec_child_of_prefix(m, layout, ids, i + 1, x));
        }
    }
}

/// Stepping the child-reference set past an inner block adds exactly that
/// block's children.
proof fn lemma_prefix_step_inner(
    m: crate::tree_model::BlockMap,
    layout: NodeLayout,
    ids: Seq<BlockId>,
    i: int,
    pre: Seq<u128>,
    post: Seq<u128>,
    b: Seq<u8>,
)
    requires
        0 <= i < ids.len(),
        b == m[ids[i].value],
        crate::data_node::is_inner_bytes(layout, b),
        forall|x: u128| pre.contains(x) <==> spec_child_of_prefix(m, layout, ids, i, x),
        post.len() == pre.len() + crate::layout::spec_size_field(b),
        forall|k: int| 0 <= k < pre.len() ==> post[k] == pre[k],
        forall|k: int|
            pre.len() <= k < post.len() ==> post[k] == crate::data_node::spec_child_id(
                b,
                k - pre.len(),
            ),
    ensures
        forall|x: u128| post.contains(x) <==> spec_child_of_prefix(m, layout, ids, i + 1, x),
{
    assert forall|x: u128| post.contains(x) <==> spec_child_of_prefix(
        m,
        layout,
        ids,
        i + 1,
        x,
    ) by {
        if post.contains(x) {
            let k = choose|k: int| 0 <= k < post.len() && post[k] == x;
            if k < pre.len() {
                assert(pre.contains(x));
                let j = choose|j: int|
                    0 <= j < i && crate::data_node::is_inner_bytes(layout, m[ids[j].value])
                        && spec_references(m[ids[j].value], x);
                assert(spec_child_of_prefix(m, layout, ids, i + 1, x));
            } else {
                assert(crate::data_node::spec_child_id(b, k - pre.len()) == x);
                assert(spec_references(b, x));
                assert(spec_child_of_prefix(m, layout, ids, i + 1, x));
            }
        }
        if spec_child_of_prefix(m, layout, ids, i + 1, x) {
            let j = choose|j: int|
                0 <= j < i + 1 && crate::data_node::is_inner_bytes(layout, m[ids[j].value])
                    && spec_references(m[ids[j].value], x);
            if j == i {
                let c = choose|c: int|
                    0 <= c < crate::layout::spec_size_field(b) && crate::data_node::spec_child_id(
                        b,
                        c,
                    ) == x;
                assert(post[pre.len() + c] == x);
                assert(post.contains(x));
            } else {
                assert(spec_child_of_prefix(m, layout, ids, i, x));
                assert(pre.contains(x));
                let k = choose|k: int| 0 <= k < pre.len() && pre[k] == x;
                assert(post[k] == x);
                assert(post.contains(x));
            }
        }
    }
}

/// A single leaf block is a well-formed tree, storing the leaf's bytes.
pub proof fn lemma_single_leaf_tree(m: crate::tree_model::BlockMap, layout: NodeLayout, root: u128)
    requires
        layout.valid(),
        m.dom().contains(root),
        crate::data_node::is_leaf_bytes(layout, m[root]),
    ensures
        is_tree(m, layout, root),
        tree_blob(m, layout, root) == crate::data_node::spec_leaf_data(m[root]),
        tree_ids(m, root) == set![root],
{
    let depth = crate::tree_model::tree_depth(m, root);
    assert(depth == 0);
    let blob = tree_blob(m, layout, root);
    let data = crate::data_node::spec_leaf_data(m[root]);
    assert(blob.len() == data.len());
    assert forall|i: int| 0 <= i < blob.len() implies blob[i] == data[i] by {
        let mbl = crate::tree_model::spec_mbl(layout);
        vstd::arithmetic::div_mod::lemma_fundamental_div_mod(i, mbl as int);
        vstd::arithmetic::div_mod::lemma_mod_division_less_than_divisor(i, mbl as int);
        vstd::arithmetic::div_mod::lemma_fundamental_div_mod_converse(i, mbl as int, 0, i);
        assert(crate::tree_model::subtree_leaf_id(m, layout, root, 0, (i / mbl as int) as nat)
            == root);
    }
    assert(blob =~= data);
}

} // verus!
