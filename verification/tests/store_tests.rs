use blobtree::RemoveResult;
use blobtree::block_id::BlockId;
use blobtree::block_store::InMemoryBlockStore;
use blobtree::data_fixture::DataFixture;
use blobtree::data_node::DataNode;
use blobtree::data_tree::DataTree;
use blobtree::data_tree_store::DataTreeStore;

const PHYSICAL_BLOCK_SIZE_BYTES: u32 = 1024;

fn new_treestore() -> DataTreeStore {
    DataTreeStore::new(InMemoryBlockStore::new(), PHYSICAL_BLOCK_SIZE_BYTES)
        .unwrap_or_else(|_| panic!("block size accepted"))
}

fn data_fixture(size: usize, seed: u64) -> Vec<u8> {
    DataFixture::new(seed).get(size)
}

fn create_one_leaf_tree(store: &mut DataTreeStore) -> DataTree {
    store.create_tree().unwrap()
}

fn create_multi_leaf_tree(store: &mut DataTreeStore, num_leaves: u64) -> DataTree {
    let tree = store.create_tree().unwrap();
    let mbl = store.virtual_block_size_bytes() as u64;
    tree.resize_num_bytes(&mut store.node_store, num_leaves * mbl).unwrap();
    tree
}

struct TreeFixture {
    root_id: BlockId,
    data: Vec<u8>,
}

impl TreeFixture {
    fn create_tree_with_data(store: &mut DataTreeStore, size: usize, seed: u64) -> TreeFixture {
        let tree = store.create_tree().unwrap();
        let data = data_fixture(size, seed);
        tree.write_bytes(&mut store.node_store, &data, 0).unwrap();
        TreeFixture { root_id: *tree.root_node_id(), data }
    }

    fn create_tree_with_data_and_id(
        store: &mut DataTreeStore,
        id: BlockId,
        size: usize,
        seed: u64,
    ) -> TreeFixture {
        let tree = store.try_create_tree(id).unwrap().unwrap();
        let data = data_fixture(size, seed);
        tree.write_bytes(&mut store.node_store, &data, 0).unwrap();
        TreeFixture { root_id: *tree.root_node_id(), data }
    }

    fn assert_data_is_still_intact(&self, store: &DataTreeStore) {
        let tree = store.load_tree(self.root_id).unwrap().unwrap();
        let mut buf = vec![0u8; self.data.len()];
        tree.read_bytes(store.node_store(), 0, &mut buf).unwrap();
        assert_eq!(buf, self.data);
    }
}

#[test]
fn not_existing() {
    let store = new_treestore();
    let tree = store
        .load_tree(BlockId::from_hex("d86afd0489d7c3046c446e8ec1a049fe").unwrap())
        .unwrap();
    assert!(tree.is_none());
}

#[test]
fn existing_one_leaf_node() {
    let mut store = new_treestore();
    let root_id = *store.create_tree().unwrap().root_node_id();
    let tree = store.load_tree(root_id).unwrap().unwrap();
    assert_eq!(root_id, *tree.root_node_id());
}

#[test]
fn existing_multiple_leaf_nodes() {
    let mut store = new_treestore();
    let root_id = {
        let tree = store.create_tree().unwrap();
        tree.resize_num_bytes(&mut store.node_store, 10 * PHYSICAL_BLOCK_SIZE_BYTES as u64)
            .unwrap();
        *tree.root_node_id()
    };
    let tree = store.load_tree(root_id).unwrap().unwrap();
    assert_eq!(root_id, *tree.root_node_id());
}

#[test]
fn store_loadable_after_creation() {
    let mut store = new_treestore();
    let root_id = *store.create_tree().unwrap().root_node_id();
    let tree = store.load_tree(root_id).unwrap().unwrap();
    assert_eq!(root_id, *tree.root_node_id());

    // the same holds with a caller-chosen id
    let chosen = BlockId::from_hex("d86afd0489d7c3046c446e8ec1a049fe").unwrap();
    assert_eq!(
        chosen,
        *store.try_create_tree(chosen).unwrap().unwrap().root_node_id()
    );
    let tree = store.load_tree(chosen).unwrap().unwrap();
    assert_eq!(chosen, *tree.root_node_id());
}

#[test]
fn store_is_just_one_empty_leaf_node() {
    let mut store = new_treestore();
    let mut tree = store.create_tree().unwrap();
    assert_eq!(tree.num_nodes(store.node_store()).unwrap(), 1);
    assert_eq!(tree.num_bytes(store.node_store()).unwrap(), 0);
    tree.flush(&mut store.node_store).unwrap();
    let DataNode::Leaf(node) = store.node_store().load(*tree.root_node_id()).unwrap().unwrap()
    else {
        panic!("Expected inner node");
    };
    assert_eq!(0, node.num_bytes());

    // the same holds with a caller-chosen id
    let chosen = BlockId::from_hex("d86afd0489d7c3046c446e8ec1a049fe").unwrap();
    let mut tree = store.try_create_tree(chosen).unwrap().unwrap();
    assert_eq!(tree.num_nodes(store.node_store()).unwrap(), 1);
    assert_eq!(tree.num_bytes(store.node_store()).unwrap(), 0);
    tree.flush(&mut store.node_store).unwrap();
    let DataNode::Leaf(node) = store.node_store().load(*tree.root_node_id()).unwrap().unwrap()
    else {
        panic!("Expected inner node");
    };
    assert_eq!(0, node.num_bytes());
}

#[test]
fn with_already_existing_id() {
    let mut store = new_treestore();
    let root_id = BlockId::from_hex("d86afd0489d7c3046c446e8ec1a049fe").unwrap();
    assert_eq!(
        root_id,
        *store.try_create_tree(root_id).unwrap().unwrap().root_node_id()
    );
    assert!(store.try_create_tree(root_id).unwrap().is_none());
}

#[test]
#[allow(non_snake_case)]
fn givenEmptyTreeStore_whenRemovingNonExistingEntry_thenFails() {
    let mut store = new_treestore();
    assert_eq!(
        RemoveResult::NotRemovedBecauseItDoesntExist,
        store
            .remove_tree_by_id(BlockId::from_hex("3674b8dc1c3c1c41e331a1ebd4949087").unwrap())
            .unwrap()
    );
}

#[test]
#[allow(non_snake_case)]
fn givenOtherwiseEmptyTreeStore_whenRemovingExistingOneNodeTree_thenCannotBeLoadedAnymore() {
    let mut store = new_treestore();
    let root_id = *create_one_leaf_tree(&mut store).root_node_id();
    assert!(store.load_tree(root_id).unwrap().is_some());
    assert_eq!(
        RemoveResult::SuccessfullyRemoved,
        store.remove_tree_by_id(root_id).unwrap()
    );
    assert!(store.load_tree(root_id).unwrap().is_none());
}

#[test]
#[allow(non_snake_case)]
fn givenOtherwiseEmptyTreeStore_whenRemovingExistingMultiNodeTree_thenCannotBeLoadedAnymore() {
    let mut store = new_treestore();
    const NUM_LEAVES: u64 = 10;
    let root_id = *create_multi_leaf_tree(&mut store, NUM_LEAVES).root_node_id();
    assert!(store.load_tree(root_id).unwrap().is_some());
    assert_eq!(
        RemoveResult::SuccessfullyRemoved,
        store.remove_tree_by_id(root_id).unwrap()
    );
    assert!(store.load_tree(root_id).unwrap().is_none());
}

#[test]
#[allow(non_snake_case)]
fn givenOtherwiseEmptyTreeStore_whenRemovingExistingMultiNodeTree_thenDeletesAllNodesOfThisTree() {
    let mut store = new_treestore();
    const NUM_LEAVES: u64 = 10;
    let root_id = *create_multi_leaf_tree(&mut store, NUM_LEAVES).root_node_id();
    store.clear_cache_slow().unwrap();
    assert_eq!(NUM_LEAVES + 1, store.node_store().num_nodes());
    assert_eq!(
        RemoveResult::SuccessfullyRemoved,
        store.remove_tree_by_id(root_id).unwrap()
    );
    store.clear_cache_slow().unwrap();
    assert_eq!(0, store.node_store().num_nodes());
}

#[test]
#[allow(non_snake_case)]
fn givenTreeStoreWithOtherTrees_whenRemovingNonExistingEntry_thenFails() {
    let mut store = new_treestore();
    let other_size = 10 * store.virtual_block_size_bytes() as usize;
    let _other_tree = TreeFixture::create_tree_with_data_and_id(
        &mut store,
        BlockId::from_hex("41e331a31c3c1c1ebd4949087674b8dc").unwrap(),
        other_size,
        0,
    );
    assert_eq!(
        RemoveResult::NotRemovedBecauseItDoesntExist,
        store
            .remove_tree_by_id(BlockId::from_hex("3674b8dc1c3c1c41e331a1ebd4949087").unwrap())
            .unwrap()
    );
}

#[test]
#[allow(non_snake_case)]
fn givenTreeStoreWithOtherTrees_whenRemovingExistingOneNodeTree_thenCannotBeLoadedAnymore() {
    let mut store = new_treestore();
    let other_size = 10 * store.virtual_block_size_bytes() as usize;
    let _other_tree = TreeFixture::create_tree_with_data(&mut store, other_size, 0);
    let root_id = *create_one_leaf_tree(&mut store).root_node_id();
    assert!(store.load_tree(root_id).unwrap().is_some());
    assert_eq!(
        RemoveResult::SuccessfullyRemoved,
        store.remove_tree_by_id(root_id).unwrap()
    );
    assert!(store.load_tree(root_id).unwrap().is_none());
}

#[test]
#[allow(non_snake_case)]
fn givenTreeStoreWithOtherTrees_whenRemovingExistingMultiNodeTree_thenCannotBeLoadedAnymore() {
    let mut store = new_treestore();
    const NUM_LEAVES: u64 = 10;
    let other_size = NUM_LEAVES as usize * store.virtual_block_size_bytes() as usize;
    let _other_tree = TreeFixture::create_tree_with_data(&mut store, other_size, 0);
    let root_id = *create_multi_leaf_tree(&mut store, NUM_LEAVES).root_node_id();
    assert!(store.load_tree(root_id).unwrap().is_some());
    assert_eq!(
        RemoveResult::SuccessfullyRemoved,
        store.remove_tree_by_id(root_id).unwrap()
    );
    assert!(store.load_tree(root_id).unwrap().is_none());
}

#[test]
#[allow(non_snake_case)]
fn givenTreeStoreWithOtherTrees_whenRemovingExistingMultiNodeTree_thenDeletesAllNodesOfThisTree() {
    let mut store = new_treestore();
    const NUM_LEAVES: u64 = 10;
    let other_size = NUM_LEAVES as usize * store.virtual_block_size_bytes() as usize;
    let _other_tree = TreeFixture::create_tree_with_data(&mut store, other_size, 0);
    let root_id = *create_multi_leaf_tree(&mut store, NUM_LEAVES).root_node_id();
    store.clear_cache_slow().unwrap();
    assert_eq!(2 * NUM_LEAVES + 2, store.node_store().num_nodes());
    assert_eq!(
        RemoveResult::SuccessfullyRemoved,
        store.remove_tree_by_id(root_id).unwrap()
    );
    store.clear_cache_slow().unwrap();
    assert_eq!(NUM_LEAVES + 1, store.node_store().num_nodes());
}

#[test]
#[allow(non_snake_case)]
fn givenTreeStoreWithOtherTrees_whenRemovingExistingMultiNodeTree_thenDoesntDeleteOtherTrees() {
    let mut store = new_treestore();
    const NUM_LEAVES: u64 = 10;
    let other_size = NUM_LEAVES as usize * store.virtual_block_size_bytes() as usize;
    let other_tree = TreeFixture::create_tree_with_data(&mut store, other_size, 0);
    let root_id = *create_multi_leaf_tree(&mut store, NUM_LEAVES).root_node_id();
    store.clear_cache_slow().unwrap();
    assert_eq!(2 * NUM_LEAVES + 2, store.node_store().num_nodes());
    assert_eq!(
        RemoveResult::SuccessfullyRemoved,
        store.remove_tree_by_id(root_id).unwrap()
    );
    store.clear_cache_slow().unwrap();
    assert_eq!(NUM_LEAVES + 1, store.node_store().num_nodes());
    other_tree.assert_data_is_still_intact(&store);
}

#[test]
fn all_tree_roots_lists_each_root_once() {
    let mut store = new_treestore();
    let a = *store.create_tree().unwrap().root_node_id();
    let b_tree = create_multi_leaf_tree(&mut store, 10);
    let b = *b_tree.root_node_id();
    let mut roots = store.all_tree_roots().unwrap();
    roots.sort_by_key(|r| r.value);
    let mut expected = vec![a, b];
    expected.sort_by_key(|r| r.value);
    assert_eq!(roots, expected);

    // removing one tree removes exactly its root from the listing
    store.remove_tree_by_id(b).unwrap();
    let roots = store.all_tree_roots().unwrap();
    assert_eq!(roots, vec![a]);
}
